use std::cmp::Ordering;

use mostr::hashtag::{is_hashtag, Hashtag};
use mostr::lists::sort;
use mostr::nostr::Tag;

#[test]
fn test_hashtag() {
    assert_eq!("yeah", "YeaH".to_ascii_lowercase());
    assert_eq!("yeah".to_ascii_lowercase().cmp(&"YeaH".to_ascii_lowercase()), Ordering::Equal);

    let strings = vec!["yeah", "YeaH"];
    let tags = sort(strings.iter().map(|s| Hashtag::from(s)).collect::<Vec<_>>());
    assert_eq!(strings, tags.iter().map(|t| t.content()).collect::<Vec<_>>());
    let tags = sort(tags);
    assert_eq!(strings, tags.iter().map(|t| t.content()).collect::<Vec<_>>());
}

#[test]
fn hashtags_compare_without_case() {
    assert!(Hashtag::from("Yeah") == Hashtag::from(" yeAH "));
    assert!(Hashtag::from("a") != Hashtag::from("b"));
    assert_eq!(Hashtag::from("Yeah").cmp(&Hashtag::from("yeah")), Ordering::Equal);
    assert_eq!(Hashtag::from("B").cmp(&Hashtag::from("a")), Ordering::Greater);
    assert_eq!(Hashtag::from("A").cmp(&Hashtag::from("b")), Ordering::Less);
    assert!(Hashtag::from("A") < Hashtag::from("b"));
    assert!(Hashtag::from("ümlaut") != Hashtag::from("Ümlaut"));
}

#[test]
fn hashtags_match_part_of_their_text() {
    assert!(Hashtag::from("reading").matches("EAD"));
    assert!(!Hashtag::from("READING").matches("ead"));
    assert!(!Hashtag::from("read").matches("reading"));
}

#[test]
fn hashtags_are_read_from_tags() {
    let tag = Tag::hashtag("MixedÄ");
    assert_eq!(tag.content().unwrap(), "mixedä");
    assert!(is_hashtag(&tag));
    assert_eq!(Hashtag::try_from(&tag).unwrap().content(), "mixedä");
    let other = Tag::custom("p", "mixed".to_string());
    assert!(!is_hashtag(&other));
    assert_eq!(Hashtag::try_from(&other).unwrap_err(), "Tag is not a Hashtag");
    let bare = Tag::parse(vec!["t".to_string()]).unwrap();
    assert_eq!(Hashtag::try_from(&bare).unwrap_err(), "Tag is not a Hashtag");
    assert_eq!(Hashtag::from("Up").to_tag(), Tag::hashtag("up"));
}
