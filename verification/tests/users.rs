use mostr::event_sender::EventSender;
use mostr::kinds::{extract_tags, METADATA_KIND};
use mostr::nostr::{EventBuilder, PublicKey, Signer, Tag};
use mostr::tasks::nostr_users::{Metadata, NostrUsers};
use mostr::tasks::TasksRelay;
use nostr_sdk::Timestamp;

const KEY: &'static str = "79be667ef9dcbbac55a06295ce870b07029bfcdb2dce28d959f2815b16f81798";
const OTHER: &'static str = "c6047f9441ed7d6d3045406e95c07cd85c778e4b8cef3ca7abac09b95c709ee5";

fn key(text: &str) -> PublicKey {
    PublicKey::parse(text).unwrap()
}

fn named(name: &str) -> Metadata {
    Metadata::new(Some(name.to_string()), None)
}

#[test]
fn test_user_extract() {
    let pubkey = Signer::generate().pubkey();
    let mut users = NostrUsers::default();
    users.insert(
        pubkey,
        Metadata::new(None, Some("Tester Jo".to_string())),
        Timestamp::now().as_u64(),
    );
    assert_eq!(
        extract_tags("Hello @test", &users),
        ("Hello".to_string(), vec![Tag::public_key(pubkey)])
    );
}

#[test]
fn newer_metadata_replaces_older() {
    let mut users = NostrUsers::default();
    users.insert(key(KEY), named("first"), 5);
    assert_eq!(users.get_username(&key(KEY)), "first");
    users.insert(key(KEY), named("older"), 4);
    assert_eq!(users.get_username(&key(KEY)), "first");
    users.insert(key(KEY), named("same"), 5);
    assert_eq!(users.get_username(&key(KEY)), "first");
    users.insert(key(KEY), named("newer"), 6);
    assert_eq!(users.get_username(&key(KEY)), "newer");
    assert_eq!(users.find_user("newer"), vec![key(KEY)]);
    assert_eq!(users.find_user("first"), vec![]);
}

#[test]
fn users_are_found_by_names_and_keys() {
    let mut users = NostrUsers::default();
    users.insert(key(KEY), Metadata::new(Some("jo".to_string()), Some("Tester".to_string())), 5);
    users.create(key(OTHER));
    assert_eq!(users.find_user("JO"), vec![key(KEY)]);
    assert_eq!(users.find_user("test"), vec![key(KEY)]);
    assert_eq!(users.find_user("C6047"), vec![key(OTHER)]);
    assert_eq!(users.find_user("c604"), vec![]);
    assert_eq!(users.find_user(OTHER), vec![key(OTHER)]);
    assert_eq!(users.find_user("nobody"), vec![]);
    assert_eq!(users.find_user(" "), vec![]);
    assert_eq!(
        users.find_user_with_displayname("jo"),
        vec![(key(KEY), "Tester@79be66".to_string())]
    );
    // Without a name the key stands for it
    assert_eq!(users.get_displayname(&key(OTHER)), OTHER);
    assert_eq!(users.get_displayname(&key(KEY)), "Tester@79be66");
    assert_eq!(users.get_username(&key(KEY)), "jo");
    assert_eq!(users.get_username(&key(OTHER)), "c6047f");
}

#[test]
fn users_are_found_latest_first() {
    let mut users = NostrUsers::default();
    users.insert(key(KEY), named("jo"), 5);
    users.insert(key(OTHER), named("johanna"), 6);
    assert_eq!(users.find_user("jo"), vec![key(OTHER), key(KEY)]);
}

#[test]
fn creating_a_known_user_changes_nothing() {
    let mut users = NostrUsers::default();
    users.insert(key(KEY), named("jo"), 5);
    users.create(key(KEY));
    assert_eq!(users.get_username(&key(KEY)), "jo");
}

#[test]
fn metadata_comes_from_events() {
    let signer = Signer::generate();
    let other = Signer::generate();
    let mut tasks = TasksRelay::with_sender(EventSender::from(None, signer));
    let builder = EventBuilder::new(
        METADATA_KIND,
        "{\"name\":\"quinn\",\"display_name\":\"Quinn Q\",\"about\":\"x\"}",
    );
    tasks.add(other.sign(builder, 100));
    assert_eq!(tasks.users.get_username(&other.pubkey()), "quinn");
    assert_eq!(
        tasks.users.get_displayname(&other.pubkey()),
        format!("Quinn Q@{}", &other.pubkey().to_string()[..6])
    );
    // What is not valid metadata is passed over
    tasks.add(other.sign(EventBuilder::new(METADATA_KIND, "{nothing"), 200));
    assert_eq!(tasks.users.get_username(&other.pubkey()), "quinn");
}
