//! The kinds of events in use, and the tags that tasks carry.

use crate::lists::{group_views, sort_to_set, sorted_set, views};
use crate::nostr::{
    event_id_of, public_key_of, tag_content, tag_is, BuilderView, EventBuilder, EventId, PublicKey,
    Tag, TagView,
};
use crate::tasks::nostr_users::{found_users, owned_text, NostrUsers, UsersView};
use crate::text::{
    cut, decimal, join, joined, parse_unsigned, same_text, split_words, starts_with_char, to_decimal,
    trim_leading, truncate, unsigned_value, without_leading, words,
};
use vstd::prelude::*;
use vstd::string::StrSliceExecFns;

verus! {

pub const METADATA_KIND: u16 = 0;

pub const TEXT_NOTE_KIND: u16 = 1;

pub const TASK_KIND: u16 = 1621;

pub const STATUS_OPEN_KIND: u16 = 1630;

pub const STATUS_DONE_KIND: u16 = 1631;

pub const STATUS_CLOSED_KIND: u16 = 1632;

pub const STATUS_PENDING_KIND: u16 = 1633;

pub const PROCEDURE_KIND_ID: u16 = 1639;

pub const PROCEDURE_KIND: u16 = PROCEDURE_KIND_ID;

pub const TRACKING_KIND: u16 = 1650;

pub const BOOKMARKS_KIND: u16 = 10003;

pub const BASIC_KINDS: [u16; 4] = [METADATA_KIND, TEXT_NOTE_KIND, TASK_KIND, BOOKMARKS_KIND];

pub const PROP_KINDS: [u16; 6] = [
    TRACKING_KIND,
    STATUS_OPEN_KIND,
    STATUS_DONE_KIND,
    STATUS_CLOSED_KIND,
    STATUS_PENDING_KIND,
    PROCEDURE_KIND,
];

pub type Prio = u16;

pub const PRIO: &'static str = "priority";

pub const HIGH_PRIO: Prio = 85;

pub const MARKER_PARENT: &'static str = "parent";

pub const MARKER_DEPENDS: &'static str = "depends";

pub const MARKER_PROPERTY: &'static str = "property";

/// Helper for available properties.
pub const PROPERTY_COLUMNS: &'static str = "# Available Properties
Immutable:
- `id` - unique task id
- `parentid` - unique task id of the parent, if any
- `name` - initial name of the task
- `created` - task creation timestamp
- `author` - name or abbreviated key of the task creator
Task:
- `status` - pure task status
- `hashtags` - list of hashtags set for the task
- `tags` - values of all nostr tags associated with the event, except event tags
- `desc` - last note on the task
- `description` - all notes on the task
- `time` - time tracked on the task by you
Utilities:
- `state` - indicator of current progress
- `owner` - author or task assignee
- `rtime` - time tracked on this tasks and its subtree by everyone
- `progress` - recursive subtask completion in percent
- `subtasks` - how many direct subtasks are complete
- `path` - name including parent tasks
- `rpath` - name including parent tasks up to active task
- TBI `depends` - list all tasks that the task depends on before it becomes actionable
Debugging: `kind`, `pubkey`, `props`, `alltags`, `descriptions`";

// ---------------------------------------------------------------------------
// References to events

/// A reference to an event, with the marker that says what for.
#[derive(Debug)]
pub struct EventTag {
    pub id: EventId,
    pub marker: Option<String>,
}

#[verifier::ext_equal]
pub struct RefView {
    pub id: EventId,
    pub marker: Option<Seq<char>>,
}

impl View for EventTag {
    type V = RefView;

    open spec fn view(&self) -> RefView {
        RefView { id: self.id, marker: owned_text(self.marker) }
    }
}

/// The reference in a tag: its kind is the letter e and its value an id; the marker is the
/// fourth field.
pub open spec fn event_ref(tag: TagView) -> Option<RefView> {
    if tag_is(tag, "e"@) && tag.len() > 1 {
        match event_id_of(tag[1]) {
            Some(id) => Some(
                RefView {
                    id,
                    marker: if tag.len() > 3 {
                        Some(tag[3])
                    } else {
                        None
                    },
                },
            ),
            None => None,
        }
    } else {
        None
    }
}

pub open spec fn ref_view(r: Option<EventTag>) -> Option<RefView> {
    match r {
        Some(t) => Some(t@),
        None => None,
    }
}

/// Return event tag if existing
pub fn match_event_tag(tag: &Tag) -> (r: Option<EventTag>)
    ensures
        ref_view(r) == event_ref(tag@),
{
    if tag.is_kind("e") {
        match tag.get(1) {
            Some(value) => match EventId::parse(value.as_str()) {
                Some(id) => {
                    let marker: Option<String> = match tag.get(3) {
                        Some(m) => Some(m.clone()),
                        None => None,
                    };
                    return Some(EventTag { id, marker });
                },
                None => {},
            },
            None => {},
        }
    }
    None
}

/// The tag that tracking the given task carries, if any is tracked.
pub open spec fn tracking_tags(id: Option<EventId>) -> Seq<TagView> {
    match id {
        Some(id) => seq![seq!["e"@, id.text()]],
        None => Seq::empty(),
    }
}

pub open spec fn tracking_view(id: Option<EventId>) -> BuilderView {
    BuilderView::new(TRACKING_KIND, ""@).tags(tracking_tags(id))
}

/// An event that starts tracking the given task, or stops tracking.
pub fn build_tracking(id: Option<EventId>) -> (r: EventBuilder)
    ensures
        r@ == tracking_view(id),
{
    broadcast use group_views;

    let mut tags: Vec<Tag> = Vec::new();
    match id {
        Some(id) => {
            tags.push(Tag::event(id));
        },
        None => {},
    }
    assert(views(tags@) =~= tracking_tags(id));
    EventBuilder::new(TRACKING_KIND, "").tags(tags)
}

// ---------------------------------------------------------------------------
// Making tags

pub fn to_hashtag_tag(tag: &str) -> (r: Tag)
    ensures
        r@ == seq!["t"@, tag@],
{
    Tag::custom("t", tag.to_string())
}

pub open spec fn prio_tag(value: Prio) -> TagView {
    seq![PRIO@, decimal(value as nat)]
}

pub fn to_prio_tag(value: Prio) -> (r: Tag)
    ensures
        r@ == prio_tag(value),
{
    Tag::custom(PRIO, to_decimal(value as u64))
}

/// The hashtags among words: those that start with a hash, without it.
pub open spec fn hash_words(ws: Seq<Seq<char>>) -> Seq<TagView>
    decreases ws.len(),
{
    if ws.len() == 0 {
        Seq::empty()
    } else {
        let before = hash_words(ws.drop_last());
        let w = ws.last();
        if w.len() > 0 && w[0] == '#' {
            before.push(seq!["t"@, without_leading(w, '#')])
        } else {
            before
        }
    }
}

pub open spec fn embedded_hashtags(input: Seq<char>) -> Seq<TagView> {
    hash_words(words(input, false))
}

/// Return Hashtags embedded in the string.
pub fn extract_hashtags(input: &str) -> (r: Vec<Tag>)
    ensures
        views(r@) == embedded_hashtags(input@),
{
    broadcast use group_views;

    let ws: Vec<String> = split_words(input, false);
    let mut r: Vec<Tag> = Vec::new();
    let mut i: usize = 0;
    assert(views(ws@).take(0) =~= Seq::<Seq<char>>::empty());
    while i < ws.len()
        invariant
            0 <= i <= ws.len(),
            views(r@) == hash_words(views(ws@).take(i as int)),
        decreases ws.len() - i,
    {
        assert(views(ws@).take(i + 1).drop_last() =~= views(ws@).take(i as int));
        if starts_with_char(ws[i].as_str(), '#') {
            let content: String = trim_leading(ws[i].as_str(), '#');
            r.push(to_hashtag_tag(content.as_str()));
        }
        i += 1;
    }
    assert(views(ws@).take(ws@.len() as int) =~= views(ws@));
    r
}

/// The tag that a word stands for by itself: `@` before a key or the name of a user assigns the
/// task to them, and `*` before a number sets the priority, in tens if it is a single digit.
pub open spec fn word_tag(w: Seq<char>, users: UsersView) -> Option<TagView> {
    if w.len() > 0 && w[0] == '@' {
        match public_key_of(w.skip(1)) {
            Some(key) => Some(seq!["p"@, key.text()]),
            None => {
                let found = found_users(users, w.skip(1));
                if found.len() > 0 {
                    Some(seq!["p"@, found[0].text()])
                } else {
                    None
                }
            },
        }
    } else if w.len() > 0 && w[0] == '*' {
        if w.len() == 1 {
            Some(prio_tag(HIGH_PRIO))
        } else {
            match unsigned_value(w.skip(1), 0xffff) {
                Some(n) => Some(
                    prio_tag(
                        (n * if w.len() > 2 {
                            1
                        } else {
                            10int
                        }) as u16,
                    ),
                ),
                None => None,
            }
        }
    } else {
        None
    }
}

pub open spec fn optional_tag(t: Option<Tag>) -> Option<TagView> {
    match t {
        Some(t) => Some(t@),
        None => None,
    }
}

proof fn lemma_single_digit(s: Seq<char>)
    requires
        s.len() == 1,
    ensures
        unsigned_value(s, 0xffff) matches Some(n) ==> 0 <= n < 10,
{
    reveal_with_fuel(crate::text::digits_value, 2);
}

fn tag_of_word(w: &str, users: &NostrUsers) -> (r: Option<Tag>)
    ensures
        optional_tag(r) == word_tag(w@, users@),
{
    if starts_with_char(w, '@') {
        let rest: &str = w.substring_char(1, w.unicode_len());
        assert(rest@ =~= w@.skip(1));
        match PublicKey::parse(rest) {
            Some(key) => {
                return Some(Tag::public_key(key));
            },
            None => {},
        }
        let found: Vec<PublicKey> = users.find_user(rest);
        if found.len() > 0 {
            return Some(Tag::public_key(found[0]));
        }
        None
    } else if starts_with_char(w, '*') {
        let len: usize = w.unicode_len();
        if len == 1 {
            return Some(to_prio_tag(HIGH_PRIO));
        }
        let rest: &str = w.substring_char(1, len);
        assert(rest@ =~= w@.skip(1));
        match parse_unsigned(rest, 0xffff) {
            Some(n) => {
                let n: u16 = n as u16;
                if len > 2 {
                    Some(to_prio_tag(n))
                } else {
                    proof {
                        lemma_single_digit(rest@);
                    }
                    Some(to_prio_tag(n * 10))
                }
            },
            None => None,
        }
    } else {
        None
    }
}

/// The words that stand for no tag by themselves.
pub open spec fn plain_words(ws: Seq<Seq<char>>, users: UsersView) -> Seq<Seq<char>>
    decreases ws.len(),
{
    if ws.len() == 0 {
        Seq::empty()
    } else {
        let before = plain_words(ws.drop_last(), users);
        match word_tag(ws.last(), users) {
            Some(_) => before,
            None => before.push(ws.last()),
        }
    }
}

/// The tags that words stand for by themselves.
pub open spec fn word_tags(ws: Seq<Seq<char>>, users: UsersView) -> Seq<TagView>
    decreases ws.len(),
{
    if ws.len() == 0 {
        Seq::empty()
    } else {
        let before = word_tags(ws.drop_last(), users);
        match word_tag(ws.last(), users) {
            Some(t) => before.push(t),
            None => before,
        }
    }
}

/// Where the first lone hash stands, or behind the end.
pub open spec fn mark_at(ws: Seq<Seq<char>>) -> int
    decreases ws.len(),
{
    if ws.len() == 0 || ws[0] == "#"@ {
        0
    } else {
        1 + mark_at(ws.drop_first())
    }
}

/// The words that are no lone hash, as hashtags.
pub open spec fn listed_hashtags(ws: Seq<Seq<char>>) -> Seq<TagView>
    decreases ws.len(),
{
    if ws.len() == 0 {
        Seq::empty()
    } else {
        let before = listed_hashtags(ws.drop_last());
        if ws.last() == "#"@ {
            before
        } else {
            before.push(seq!["t"@, ws.last()])
        }
    }
}

/// What is left of an input as the name.
pub open spec fn extracted_name(input: Seq<char>, users: UsersView) -> Seq<char> {
    let plain = plain_words(words(input, false), users);
    joined(plain.take(mark_at(plain)), " "@)
}

/// The tags in an input: hashtags within the name, those listed behind a lone hash and those
/// that words stand for, sorted and each once.
pub open spec fn extracted_tags(input: Seq<char>, users: UsersView) -> Seq<TagView> {
    let plain = plain_words(words(input, false), users);
    sorted_set::<Tag>(
        embedded_hashtags(extracted_name(input, users)) + listed_hashtags(
            plain.skip(mark_at(plain)),
        ) + word_tags(words(input, false), users),
    )
}

proof fn lemma_mark_at(ws: Seq<Seq<char>>, at: int)
    requires
        0 <= at <= ws.len(),
        forall|i: int| 0 <= i < at ==> #[trigger] ws[i] != "#"@,
        at < ws.len() ==> ws[at] == "#"@,
    ensures
        mark_at(ws) == at,
    decreases ws.len(),
{
    if ws.len() > 0 && ws[0] != "#"@ {
        let rest = ws.drop_first();
        assert forall|i: int| 0 <= i < at - 1 implies #[trigger] rest[i] != "#"@ by {
            assert(ws[i + 1] != "#"@);
        }
        lemma_mark_at(rest, at - 1);
    }
}

fn texts_before(v: &Vec<String>, to: usize) -> (r: Vec<String>)
    requires
        to <= v.len(),
    ensures
        views(r@) == views(v@).take(to as int),
{
    broadcast use group_views;

    let mut r: Vec<String> = Vec::new();
    let mut i: usize = 0;
    assert(views(v@).take(0) =~= Seq::<Seq<char>>::empty());
    while i < to
        invariant
            0 <= i <= to <= v.len(),
            views(r@) == views(v@).take(i as int),
        decreases to - i,
    {
        r.push(v[i].clone());
        assert(views(v@).take(i as int).push(views(v@)[i as int]) =~= views(v@).take(i + 1));
        i += 1;
    }
    r
}

/// Extracts everything after a " # " as a list of tags
/// as well as various embedded tags.
///
/// Expects sanitized input.
pub fn extract_tags(input: &str, users: &NostrUsers) -> (r: (String, Vec<Tag>))
    ensures
        r.0@ == extracted_name(input@, users@),
        views(r.1@) == extracted_tags(input@, users@),
{
    broadcast use group_views;

    let ws: Vec<String> = split_words(input, false);
    let ghost all = views(ws@);
    let mut plain: Vec<String> = Vec::new();
    let mut own: Vec<Tag> = Vec::new();
    let mut i: usize = 0;
    assert(all.take(0) =~= Seq::<Seq<char>>::empty());
    while i < ws.len()
        invariant
            0 <= i <= ws.len(),
            all == views(ws@),
            views(plain@) == plain_words(all.take(i as int), users@),
            views(own@) == word_tags(all.take(i as int), users@),
        decreases ws.len() - i,
    {
        assert(all.take(i + 1).drop_last() =~= all.take(i as int));
        assert(all.take(i + 1).last() == ws@[i as int]@);
        match tag_of_word(ws[i].as_str(), users) {
            Some(t) => {
                own.push(t);
            },
            None => {
                plain.push(ws[i].clone());
            },
        }
        i += 1;
    }
    assert(all.take(ws@.len() as int) =~= all);
    let ghost kept = views(plain@);
    let mut mark: usize = 0;
    while mark < plain.len() && !same_text(plain[mark].as_str(), "#")
        invariant
            0 <= mark <= plain.len(),
            kept == views(plain@),
            forall|k: int| 0 <= k < mark ==> #[trigger] kept[k] != "#"@,
        decreases plain.len() - mark,
    {
        mark += 1;
    }
    proof {
        assert(mark < plain.len() ==> kept[mark as int] == plain@[mark as int]@);
        lemma_mark_at(kept, mark as int);
    }
    let main_words: Vec<String> = texts_before(&plain, mark);
    let main: String = join(&main_words, " ");
    let mut tags: Vec<Tag> = extract_hashtags(main.as_str());
    let ghost embedded = views(tags@);
    let mut i: usize = mark;
    assert(kept.subrange(mark as int, mark as int) =~= Seq::<Seq<char>>::empty());
    assert(views(tags@) =~= embedded + Seq::<TagView>::empty());
    while i < plain.len()
        invariant
            mark <= i <= plain.len(),
            kept == views(plain@),
            views(tags@) == embedded + listed_hashtags(kept.subrange(mark as int, i as int)),
        decreases plain.len() - i,
    {
        let ghost now = kept.subrange(mark as int, i + 1);
        assert(now.drop_last() =~= kept.subrange(mark as int, i as int));
        assert(now.last() == plain@[i as int]@);
        let ghost before = listed_hashtags(kept.subrange(mark as int, i as int));
        if !same_text(plain[i].as_str(), "#") {
            let ghost added: TagView = seq!["t"@, plain@[i as int]@];
            assert(listed_hashtags(now) == before.push(added));
            tags.push(to_hashtag_tag(plain[i].as_str()));
            assert((embedded + before).push(added) =~= embedded + before.push(added));
            assert(views(tags@) == (embedded + before).push(added));
        } else {
            assert(listed_hashtags(now) == before);
        }
        i += 1;
    }
    assert(kept.subrange(mark as int, plain@.len() as int) =~= kept.skip(mark as int));
    tags.append(&mut own);
    (main, sort_to_set(tags))
}

// ---------------------------------------------------------------------------
// Showing tags

/// What `TagStandard::parse` reads of a tag that refers to a person: the key and an alias.
pub uninterp spec fn person_tag(tag: Seq<Seq<char>>) -> Option<((u128, u128), Option<Seq<char>>)>;

/// `nostr_sdk::TagStandard::parse`, as far as it finds the key of a person with an alias: what it
/// makes of a tag depends on the values of the tag alone.
#[verifier::external_body]
fn parse_person(tag: &Vec<String>) -> (r: Option<((u128, u128), Option<String>)>)
    ensures
        match r {
            Some((key, alias)) => person_tag(views(tag@)) == Some((key, owned_text(alias))),
            None => person_tag(views(tag@)) is None,
        },
{
    match nostr_sdk::TagStandard::parse(tag.as_slice()).ok()? {
        nostr_sdk::TagStandard::PublicKey { public_key, alias, .. } => {
            let bytes = public_key.to_bytes();
            let hi = u128::from_be_bytes(bytes[..16].try_into().ok()?);
            let lo = u128::from_be_bytes(bytes[16..].try_into().ok()?);
            Some(((hi, lo), alias))
        },
        _ => None,
    }
}

/// A tag as it is shown: the key and alias of a person, a hashtag behind a hash, or all values.
pub open spec fn basic_tag_text(tag: TagView) -> Seq<char> {
    match person_tag(tag) {
        Some(((hi, lo), alias)) => "Key"@ + (PublicKey { hi, lo }).text() + ": "@ + (match alias {
            Some(a) => cut(" "@ + a, 8),
            None => Seq::empty(),
        }),
        None => match tag_content(tag) {
            Some(content) => if tag_is(tag, "t"@) {
                "#"@ + content
            } else {
                joined(tag, " "@)
            },
            None => joined(tag, " "@),
        },
    }
}

pub fn format_tag_basic(tag: &Tag) -> (r: String)
    ensures
        r@ == basic_tag_text(tag@),
{
    match parse_person(tag.as_slice()) {
        Some(((hi, lo), alias)) => {
            let mut r: String = "Key".to_string();
            let key: String = (PublicKey { hi, lo }).to_string();
            r.append(key.as_str());
            r.append(": ");
            match alias {
                Some(a) => {
                    let mut shown: String = " ".to_string();
                    shown.append(a.as_str());
                    let shown: String = truncate(shown.as_str(), 8);
                    r.append(shown.as_str());
                },
                None => {},
            }
            assert(r@ =~= basic_tag_text(tag@));
            return r;
        },
        None => {},
    }
    if tag.is_kind("t") {
        match tag.content() {
            Some(content) => {
                let mut r: String = "#".to_string();
                r.append(content.as_str());
                return r;
            },
            None => {},
        }
    }
    join(tag.as_slice(), " ")
}

/// A tag as it is shown: a reference by its marker and id.
pub open spec fn tag_text(tag: TagView) -> Seq<char> {
    match event_ref(tag) {
        Some(r) => (match r.marker {
            Some(m) => m,
            None => MARKER_PARENT@,
        }) + ": "@ + r.id.text(),
        None => basic_tag_text(tag),
    }
}

pub fn format_tag(tag: &Tag) -> (r: String)
    ensures
        r@ == tag_text(tag@),
{
    match match_event_tag(tag) {
        Some(et) => {
            let mut r: String = match et.marker {
                Some(m) => m,
                None => MARKER_PARENT.to_string(),
            };
            let id: String = et.id.to_string();
            r.append(": ");
            r.append(id.as_str());
            r
        },
        None => format_tag_basic(tag),
    }
}

pub open spec fn tag_texts(tags: Seq<TagView>) -> Seq<Seq<char>> {
    Seq::new(tags.len(), |i: int| tag_text(tags[i]))
}

/// Formats and joins the tags with commata
pub fn join_tags(tags: &Vec<Tag>) -> (r: String)
    ensures
        r@ == joined(tag_texts(views(tags@)), ", "@),
{
    broadcast use group_views;

    let ghost all = tag_texts(views(tags@));
    let mut parts: Vec<String> = Vec::new();
    let mut i: usize = 0;
    assert(all.take(0) =~= Seq::<Seq<char>>::empty());
    while i < tags.len()
        invariant
            0 <= i <= tags.len(),
            all == tag_texts(views(tags@)),
            views(parts@) == all.take(i as int),
        decreases tags.len() - i,
    {
        parts.push(format_tag(&tags[i]));
        assert(all.take(i as int).push(all[i as int]) =~= all.take(i + 1));
        i += 1;
    }
    assert(all.take(tags@.len() as int) =~= all);
    join(&parts, ", ")
}

// ---------------------------------------------------------------------------
// Laws

/// What is tracked is read back from the event that tracks it.
pub proof fn tracking_round_trip(id: Option<EventId>)
    ensures
        tracking_view(id).tags.len() == if id is Some {
            1int
        } else {
            0
        },
        id matches Some(i) ==> event_ref(tracking_view(id).tags[0]) == Some(
            RefView { id: i, marker: None },
        ),
{
    match id {
        Some(i) => {
            crate::nostr::event_id_round_trip(i);
        },
        None => {},
    }
}

} // verus!
