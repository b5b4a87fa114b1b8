use mostr::lists::{add_member, sort, sort_to_set};
use mostr::nostr::{
    has_id, EventBuilder, EventId, KeyError, KeyOrigin, PublicKey, Signer, Tag,
};
use nostr_sdk::{JsonUtil, ToBech32};

const KEY: &'static str = "79be667ef9dcbbac55a06295ce870b07029bfcdb2dce28d959f2815b16f81798";

fn texts(values: &[&str]) -> Vec<String> {
    values.iter().map(|v| v.to_string()).collect()
}

/// The signer whose secret is the number one.
fn first_signer() -> Signer {
    let mut secret = vec![0u8; 32];
    secret[31] = 1;
    Signer::from_secret(secret).unwrap()
}

#[test]
fn keys_are_derived_from_secrets() {
    assert_eq!(first_signer().pubkey().to_string(), KEY);
    assert!(Signer::from_secret(vec![0u8; 32]).is_none());
    assert!(Signer::from_secret(vec![1u8; 31]).is_none());
    assert_ne!(Signer::generate().pubkey(), Signer::generate().pubkey());
}

#[test]
fn keys_are_read_in_every_form() {
    let key = PublicKey::parse(KEY).unwrap();
    assert_eq!(key.to_string(), KEY);
    let npub = nostr_sdk::PublicKey::parse(KEY).unwrap().to_bech32().unwrap();
    assert_eq!(PublicKey::parse(&npub), Some(key));
    assert_eq!(PublicKey::parse("jo"), None);
}

#[test]
fn ids_are_read_in_every_form() {
    let zero = EventId::all_zeros();
    assert_eq!(zero.to_string(), "0".repeat(64));
    assert_eq!(EventId::parse(&"0".repeat(64)), Some(zero));
    let other = nostr_sdk::EventId::parse(KEY).unwrap();
    let id = EventId::parse(KEY).unwrap();
    assert_eq!(id.to_string(), KEY);
    assert_eq!(EventId::parse(&other.to_bech32().unwrap()), Some(id));
    assert_eq!(EventId::parse("task"), None);
    assert!(zero.at_most(&id) && !id.at_most(&zero) && id.at_most(&id));
    assert!(has_id(&vec![zero, id], id));
    assert!(!has_id(&vec![zero], id));
}

#[test]
fn signed_events_are_valid() {
    let signer = first_signer();
    let builder = EventBuilder::new(1621, "a \"task\"")
        .tags(vec![Tag::hashtag("TaG"), Tag::public_key(signer.pubkey())]);
    let event = signer.sign(builder, 1000);
    assert_eq!(event.created_at, 1000);
    assert_eq!(event.pubkey, signer.pubkey());
    let json = format!(
        "{{\"id\":\"{}\",\"pubkey\":\"{}\",\"created_at\":1000,\"kind\":1621,\"tags\":[[\"t\",\"tag\"],[\"p\",\"{}\"]],\"content\":\"a \\\"task\\\"\",\"sig\":\"{}\"}}",
        event.id.to_string(),
        KEY,
        KEY,
        event.sig.iter().map(|b| format!("{:02x}", b)).collect::<String>(),
    );
    assert!(nostr_sdk::Event::from_json(json).unwrap().verify().is_ok());
    // A time of its own goes before the clock
    let timed = signer.sign(EventBuilder::new(1, "x").custom_created_at(7), 1000);
    assert_eq!(timed.created_at, 7);
    // What is signed does not depend on when it is
    assert_eq!(signer.sign(EventBuilder::new(1, "x"), 7).id, timed.id);
}

#[test]
fn signatures_hold_for_one_event_of_one_key() {
    let signer = first_signer();
    let mut event = signer.sign(EventBuilder::new(1, "x"), 7);
    assert!(event.is_signed());
    assert_eq!(event.clone().sig, event.sig);
    assert!(event.clone().is_signed());
    let other = signer.sign(EventBuilder::new(1, "y"), 7);
    let copy = event.clone();
    assert!(copy == event && copy.same(&event));
    let signature = std::mem::replace(&mut event.sig, other.sig.clone());
    assert!(copy != event && copy.same(&event));
    assert!(!event.is_signed());
    event.sig = Vec::new();
    assert!(!event.is_signed());
    event.sig = signature;
    assert!(event.is_signed());
    event.pubkey = Signer::generate().pubkey();
    assert!(!event.is_signed());
}

#[test]
fn secret_keys_are_read_from_text() {
    let mut secret = vec![0u8; 32];
    secret[31] = 1;
    let hex = "0".repeat(63) + "1";
    let signer = Signer::parse(&hex).unwrap();
    assert_eq!(signer.pubkey().to_string(), KEY);
    assert_eq!(signer.secret(), &secret);
    let nsec = nostr_sdk::SecretKey::from_slice(&secret).unwrap().to_bech32().unwrap();
    assert_eq!(Signer::parse(&nsec).unwrap().secret(), &secret);
    assert!(Signer::parse("").is_none());
    assert!(Signer::parse("nsec...").is_none());
    assert!(Signer::parse(&"0".repeat(64)).is_none());
    // Only in a file there may be space around
    let padded = format!(" {}\n", nsec);
    assert!(Signer::parse(&padded).is_none());
    assert_eq!(Signer::from_file(&padded).unwrap().secret(), &secret);
    assert!(Signer::from_file("key").is_none());
}

#[test]
fn a_stored_key_goes_before_one_that_is_entered() {
    let mut secret = vec![0u8; 32];
    secret[31] = 1;
    let hex = "0".repeat(63) + "2";
    let (signer, origin) = Signer::read(Some(secret.clone()), &hex).unwrap();
    assert_eq!((signer.secret(), origin), (&secret, KeyOrigin::Stored));
    let (signer, origin) = Signer::read(None, &hex).unwrap();
    assert_eq!((signer.secret()[31], origin), (2, KeyOrigin::Entered));
    let (signer, origin) = Signer::read(None, "").unwrap();
    assert_eq!(origin, KeyOrigin::Generated);
    // What is stored is read back
    let (again, _) = Signer::read(Some(signer.secret().clone()), "").unwrap();
    assert_eq!(again.pubkey(), signer.pubkey());
    assert_eq!(Signer::read(Some(vec![]), &hex).unwrap_err(), KeyError::InvalidStored);
    assert_eq!(Signer::read(None, "key").unwrap_err(), KeyError::InvalidEntered);
}

#[test]
fn hashtags_are_lowered_by_the_tag() {
    assert_eq!(Tag::hashtag("TaG").as_slice(), &texts(&["t", "tag"]));
}

#[test]
fn tags_have_values() {
    let tag = Tag::parse(texts(&["a", "b", "c"])).unwrap();
    assert_eq!(tag.content(), Some(&"b".to_string()));
    assert_eq!(tag.get(2), Some(&"c".to_string()));
    assert_eq!(tag.get(3), None);
    assert!(tag.is_kind("a") && !tag.is_kind("b"));
    assert!(Tag::parse(vec![]).is_none());
    assert_eq!(Tag::parse(texts(&["a"])).unwrap().content(), None);
}

#[test]
fn lists_are_sorted() {
    assert_eq!(sort(texts(&["b", "a", "c", "a"])), texts(&["a", "a", "b", "c"]));
    assert_eq!(sort_to_set(texts(&["b", "a", "c", "a"])), texts(&["a", "b", "c"]));
    let mut set = texts(&["a", "c"]);
    add_member(&mut set, "b".to_string());
    add_member(&mut set, "c".to_string());
    assert_eq!(set, texts(&["a", "b", "c"]));
}
