//! Hashtags, which are the same up to the case of ASCII letters.

use crate::lists::Ordered;
use crate::nostr::{lowercase, tag_content, tag_is, Tag, TagView};
use crate::text::{
    contains, has_part, lemma_text_leq_total, lemma_text_leq_transitive, lower, same_text,
    text_at_most, text_leq, to_lower, trim, trimmed,
};
use std::cmp::Ordering;
use vstd::prelude::*;

verus! {

/// Whether the kind of a tag is the letter t, in either case.
pub open spec fn is_hashtag_tag(tag: TagView) -> bool {
    tag_is(tag, "t"@) || tag_is(tag, "T"@)
}

pub fn is_hashtag(tag: &Tag) -> (r: bool)
    ensures
        r == is_hashtag_tag(tag@),
{
    tag.is_kind("t") || tag.is_kind("T")
}

#[derive(Debug)]
pub struct Hashtag(pub String);

impl View for Hashtag {
    type V = Seq<char>;

    open spec fn view(&self) -> Seq<char> {
        self.0@
    }
}

/// The hashtag that a tag holds, if it is a hashtag and has content.
pub open spec fn hashtag_of(tag: TagView) -> Option<Seq<char>> {
    if is_hashtag_tag(tag) {
        match tag_content(tag) {
            Some(content) => Some(trimmed(content)),
            None => None,
        }
    } else {
        None
    }
}

/// The same hashtag: equal up to the case of ASCII letters.
pub open spec fn same_hashtag(a: Seq<char>, b: Seq<char>) -> bool {
    lower(a) == lower(b)
}

impl Hashtag {
    pub fn content(&self) -> (r: &str)
        ensures
            r@ == self@,
    {
        self.0.as_str()
    }

    /// Whether the lower-case form of `token` is part of this hashtag.
    pub fn matches(&self, token: &str) -> (r: bool)
        ensures
            r == has_part(self@, lower(token@)),
    {
        let lowered: String = to_lower(token);
        contains(self.0.as_str(), lowered.as_str())
    }

    pub fn from(value: &str) -> (r: Hashtag)
        ensures
            r@ == trimmed(value@),
    {
        Hashtag(trim(value))
    }

    /// The hashtag in `value`, or an error if it is none.
    pub fn try_from(value: &Tag) -> (r: Result<Hashtag, String>)
        ensures
            match r {
                Ok(h) => hashtag_of(value@) == Some(h@),
                Err(e) => hashtag_of(value@) is None && e@ == "Tag is not a Hashtag"@,
            },
    {
        if is_hashtag(value) {
            match value.content() {
                Some(content) => {
                    return Ok(Hashtag(trim(content.as_str())));
                },
                None => {},
            }
        }
        Err("Tag is not a Hashtag".to_string())
    }

    /// The tag of this hashtag, in lower case.
    pub fn to_tag(&self) -> (r: Tag)
        ensures
            r@ == seq!["t"@, lowercase(self@)],
    {
        Tag::hashtag(self.0.as_str())
    }

    pub fn same(&self, other: &Hashtag) -> (r: bool)
        ensures
            r == same_hashtag(self@, other@),
    {
        let a: String = to_lower(self.0.as_str());
        let b: String = to_lower(other.0.as_str());
        same_text(a.as_str(), b.as_str())
    }

    /// The order of the lower-case forms.
    pub fn cmp(&self, other: &Hashtag) -> (r: Ordering)
        ensures
            r == hashtag_ordering(self@, other@),
    {
        if self.same(other) {
            Ordering::Equal
        } else if self.at_most(other) {
            Ordering::Less
        } else {
            Ordering::Greater
        }
    }
}

pub open spec fn hashtag_ordering(a: Seq<char>, b: Seq<char>) -> Ordering {
    if same_hashtag(a, b) {
        Ordering::Equal
    } else if text_leq(lower(a), lower(b)) {
        Ordering::Less
    } else {
        Ordering::Greater
    }
}

impl Clone for Hashtag {
    fn clone(&self) -> (r: Hashtag)
        ensures
            r@ == self@,
    {
        Hashtag(self.0.clone())
    }
}

impl PartialEq for Hashtag {
    fn eq(&self, other: &Hashtag) -> (r: bool) {
        self.same(other)
    }
}

impl Eq for Hashtag {

}

impl vstd::std_specs::cmp::PartialEqSpecImpl for Hashtag {
    open spec fn obeys_eq_spec() -> bool {
        true
    }

    open spec fn eq_spec(&self, other: &Hashtag) -> bool {
        same_hashtag(self@, other@)
    }
}

impl PartialOrd for Hashtag {
    fn partial_cmp(&self, other: &Hashtag) -> (r: Option<Ordering>) {
        Some(self.cmp(other))
    }
}

impl vstd::std_specs::cmp::PartialOrdSpecImpl for Hashtag {
    open spec fn obeys_partial_cmp_spec() -> bool {
        true
    }

    open spec fn partial_cmp_spec(&self, other: &Hashtag) -> Option<Ordering> {
        Some(hashtag_ordering(self@, other@))
    }
}

impl Ordered for Hashtag {
    open spec fn leq(a: Seq<char>, b: Seq<char>) -> bool {
        text_leq(lower(a), lower(b))
    }

    proof fn leq_total(a: Seq<char>, b: Seq<char>) {
        lemma_text_leq_total(lower(a), lower(b));
    }

    proof fn leq_transitive(a: Seq<char>, b: Seq<char>, c: Seq<char>) {
        lemma_text_leq_transitive(lower(a), lower(b), lower(c));
    }

    fn at_most(&self, other: &Self) -> (r: bool) {
        let a: String = to_lower(self.0.as_str());
        let b: String = to_lower(other.0.as_str());
        text_at_most(a.as_str(), b.as_str())
    }
}

/// The order of hashtags agrees with their equality: two share a place exactly if they are the
/// same, and of two others one stands before the other.
pub proof fn hashtag_order_agrees_with_equality(a: Seq<char>, b: Seq<char>)
    ensures
        crate::lists::ties::<Hashtag>(a, b) <==> same_hashtag(a, b),
        (hashtag_ordering(a, b) == Ordering::Less) == (hashtag_ordering(b, a)
            == Ordering::Greater),
        (hashtag_ordering(a, b) == Ordering::Equal) == same_hashtag(a, b),
{
    lemma_text_leq_total(lower(a), lower(b));
    lemma_text_leq_total(lower(a), lower(a));
}

/// The hashtags in a list of tags, in order.
pub open spec fn hashtags_in(tags: Seq<TagView>) -> Seq<Seq<char>>
    decreases tags.len(),
{
    if tags.len() == 0 {
        Seq::empty()
    } else {
        let before = hashtags_in(tags.drop_last());
        match hashtag_of(tags.last()) {
            Some(h) => before.push(h),
            None => before,
        }
    }
}

} // verus!
