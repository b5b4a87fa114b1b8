use mostr::helpers::{some_non_empty, to_string_or_default, trim_start_count};
use mostr::kinds::{
    build_tracking, extract_hashtags, extract_tags, format_tag, format_tag_basic, join_tags,
    match_event_tag, to_hashtag_tag, to_prio_tag, EventTag, MARKER_DEPENDS, PRIO, TRACKING_KIND,
};
use mostr::nostr::{EventId, PublicKey, Tag};
use mostr::tasks::nostr_users::{Metadata, NostrUsers};

const KEY: &'static str = "79be667ef9dcbbac55a06295ce870b07029bfcdb2dce28d959f2815b16f81798";

fn texts(values: &[&str]) -> Vec<String> {
    values.iter().map(|v| v.to_string()).collect()
}

fn tag(values: &[&str]) -> Tag {
    Tag::parse(texts(values)).unwrap()
}

fn parts(tag: Option<EventTag>) -> Option<(EventId, Option<String>)> {
    tag.map(|t| (t.id, t.marker))
}

#[test]
fn test_extract_tags() {
    assert_eq!(
        extract_tags(
            "Hello from #mars with #greetings #yeah *4 # # yeah done-it",
            &NostrUsers::default()
        ),
        (
            "Hello from #mars with #greetings #yeah".to_string(),
            std::iter::once(Tag::custom(PRIO, 40.to_string()))
                .chain(["done-it", "greetings", "mars", "yeah"].into_iter().map(to_hashtag_tag))
                .collect::<Vec<Tag>>()
        )
    );
    assert_eq!(
        extract_tags("So tagless @hewo #", &NostrUsers::default()),
        ("So tagless @hewo".to_string(), vec![])
    );
}

#[test]
fn users_are_extracted_with_the_first_that_fits() {
    let key = PublicKey::parse(KEY).unwrap();
    let mut users = NostrUsers::default();
    users.insert(key, Metadata::new(Some("jo".to_string()), None), 5);
    assert_eq!(
        extract_tags("Ask @JO about *12 # paper", &users),
        ("Ask about".to_string(), vec![Tag::public_key(key), to_prio_tag(12), to_hashtag_tag("paper")])
    );
    assert_eq!(
        extract_tags("Call @nobody *x", &users),
        ("Call @nobody *x".to_string(), vec![])
    );
}

#[test]
fn hashtags_are_the_marked_words() {
    assert_eq!(
        extract_hashtags("one #two three ##four# #"),
        vec![to_hashtag_tag("two"), to_hashtag_tag("four#"), to_hashtag_tag("")]
    );
}

#[test]
fn priorities_of_one_digit_are_tens() {
    assert_eq!(extract_tags("a *0", &NostrUsers::default()).1, vec![to_prio_tag(0)]);
    assert_eq!(extract_tags("a *9", &NostrUsers::default()).1, vec![to_prio_tag(90)]);
    assert_eq!(extract_tags("a *10", &NostrUsers::default()).1, vec![to_prio_tag(10)]);
    assert_eq!(extract_tags("a *", &NostrUsers::default()).1, vec![to_prio_tag(85)]);
}

#[test]
fn tags_are_shown_by_their_kind() {
    assert_eq!(format_tag(&to_hashtag_tag("Tag")), "#Tag");
    assert_eq!(format_tag_basic(&to_hashtag_tag("tag")), "#tag");
    assert_eq!(format_tag(&to_prio_tag(30)), "priority 30");
    let id = EventId::all_zeros();
    assert_eq!(
        format_tag(&tag(&["e", &id.to_string(), "", "depends"])),
        format!("depends: {}", id.to_string())
    );
    assert_eq!(
        format_tag(&tag(&["e", &id.to_string()])),
        format!("parent: {}", id.to_string())
    );
    assert_eq!(format_tag_basic(&tag(&["e", "x", "y"])), "e x y");
    assert_eq!(format_tag(&tag(&["p", KEY])), format!("Key{}: ", KEY));
    assert_eq!(format_tag(&tag(&["p", KEY, "", "jo"])), format!("Key{}:  jo", KEY));
    assert_eq!(format_tag(&tag(&["p", KEY, "", "Josephine"])), format!("Key{}:  Josephi", KEY));
    assert_eq!(format_tag(&tag(&["p", "nobody"])), "p nobody");
    assert_eq!(format_tag(&tag(&["custom", "one", "two"])), "custom one two");
}

#[test]
fn tags_are_joined_with_commata() {
    assert_eq!(
        join_tags(&vec![to_hashtag_tag("one"), to_prio_tag(5), tag(&["empty"])]),
        "#one, priority 5, empty"
    );
    assert_eq!(join_tags(&vec![]), "");
}

#[test]
fn event_tags_are_read_with_their_marker() {
    let id = EventId::all_zeros();
    assert_eq!(
        parts(match_event_tag(&tag(&["e", &id.to_string(), "wss://relay", "depends"]))),
        Some((id, Some(MARKER_DEPENDS.to_string())))
    );
    assert_eq!(parts(match_event_tag(&tag(&["e", &id.to_string()]))), Some((id, None)));
    assert_eq!(parts(match_event_tag(&tag(&["e", "nothing"]))), None);
    assert_eq!(parts(match_event_tag(&to_hashtag_tag("e"))), None);
}

#[test]
fn tracking_events_refer_to_their_task() {
    let id = EventId::all_zeros();
    let builder = build_tracking(Some(id));
    assert_eq!(builder.kind, TRACKING_KIND);
    assert_eq!(builder.tags, vec![Tag::event(id)]);
    assert_eq!(build_tracking(None).tags, vec![]);
}

#[test]
fn small_helpers() {
    assert_eq!(to_string_or_default(Some(&"a".to_string())), "a");
    assert_eq!(to_string_or_default(None), "");
    assert_eq!(some_non_empty(""), None);
    assert_eq!(some_non_empty("x"), Some("x".to_string()));
    assert_eq!(trim_start_count("...a.", '.'), ("a.", 3));
    assert_eq!(trim_start_count("a.", '.'), ("a.", 0));
    assert_eq!(trim_start_count("", '.'), ("", 0));
}
