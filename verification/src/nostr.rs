//! The parts of the nostr protocol that tasks are made of: ids, keys, tags and signed events.

use crate::lists::{group_views, views, Ordered};
use crate::text::{same_text, trim, trimmed};
use vstd::prelude::*;

verus! {

// ---------------------------------------------------------------------------
// Hexadecimal text

/// The value of a hexadecimal digit, or -1.
pub open spec fn hex_digit(c: char) -> int {
    if '0' <= c && c <= '9' {
        (c as int) - ('0' as int)
    } else if 'a' <= c && c <= 'f' {
        (c as int) - ('a' as int) + 10
    } else if 'A' <= c && c <= 'F' {
        (c as int) - ('A' as int) + 10
    } else {
        -1
    }
}

pub open spec fn is_hex(s: Seq<char>) -> bool {
    forall|i: int| 0 <= i < s.len() ==> hex_digit(#[trigger] s[i]) >= 0
}

/// The number that hexadecimal digits denote.
pub open spec fn hex_value(s: Seq<char>) -> int
    decreases s.len(),
{
    if s.len() == 0 {
        0
    } else {
        16 * hex_value(s.drop_last()) + hex_digit(s.last())
    }
}

pub open spec fn hex_char(d: nat) -> char {
    if d < 10 {
        (('0' as u32) + d) as char
    } else {
        (('a' as u32) + d - 10) as char
    }
}

/// The last `width` hexadecimal digits of `n`, in lower case.
pub open spec fn hex_text(n: nat, width: nat) -> Seq<char>
    decreases width,
{
    if width == 0 {
        Seq::empty()
    } else {
        hex_text(n / 16, (width - 1) as nat).push(hex_char(n % 16))
    }
}

/// The text of 256 bits: 64 hexadecimal digits.
pub open spec fn id_text(hi: u128, lo: u128) -> Seq<char> {
    hex_text(hi as nat, 32) + hex_text(lo as nat, 32)
}

spec fn sixteen_to(n: nat) -> nat
    decreases n,
{
    if n == 0 {
        1
    } else {
        16 * sixteen_to((n - 1) as nat)
    }
}

proof fn lemma_hex_text(n: nat, width: nat)
    requires
        n < sixteen_to(width),
    ensures
        hex_text(n, width).len() == width,
        is_hex(hex_text(n, width)),
        hex_value(hex_text(n, width)) == n,
    decreases width,
{
    if width > 0 {
        lemma_hex_text(n / 16, (width - 1) as nat);
        let s = hex_text(n / 16, (width - 1) as nat);
        let t = hex_text(n, width);
        assert(t.drop_last() =~= s);
    }
}

/// Reading the text of an id gives back the id.
pub proof fn lemma_id_text(hi: u128, lo: u128)
    ensures
        id_text(hi, lo).len() == 64,
        is_hex(id_text(hi, lo)),
        hex_value(id_text(hi, lo).take(32)) == hi,
        hex_value(id_text(hi, lo).skip(32)) == lo,
{
    assert(sixteen_to(32) == 0x1_0000_0000_0000_0000_0000_0000_0000_0000) by {
        reveal_with_fuel(sixteen_to, 33);
    }
    lemma_hex_text(hi as nat, 32);
    lemma_hex_text(lo as nat, 32);
    let a = hex_text(hi as nat, 32);
    let b = hex_text(lo as nat, 32);
    assert((a + b).take(32) =~= a);
    assert((a + b).skip(32) =~= b);
}

fn to_hex(n: u128, width: usize) -> (r: String)
    ensures
        r@ == hex_text(n as nat, width as nat),
    decreases width,
{
    if width == 0 {
        String::new()
    } else {
        let mut r: String = to_hex(n / 16, width - 1);
        let d: u8 = (n % 16) as u8;
        let c: char = if d < 10 {
            (('0' as u8) + d) as char
        } else {
            (('a' as u8) + (d - 10)) as char
        };
        r.push(c);
        r
    }
}

fn id_to_text(hi: u128, lo: u128) -> (r: String)
    ensures
        r@ == id_text(hi, lo),
{
    let mut r: String = to_hex(hi, 32);
    let rest: String = to_hex(lo, 32);
    r.append(rest.as_str());
    r
}

// ---------------------------------------------------------------------------
// Ids and keys

/// The id of an event: 256 bits, of which `hi` holds the first half.
#[derive(Clone, Copy, Debug, PartialEq, Eq, Structural, Hash)]
pub struct EventId {
    pub hi: u128,
    pub lo: u128,
}

/// A public key: 256 bits, of which `hi` holds the first half.
#[derive(Clone, Copy, Debug, PartialEq, Eq, Structural, Hash)]
pub struct PublicKey {
    pub hi: u128,
    pub lo: u128,
}

/// What `EventId::parse` makes of a text, as the two halves of the id.
pub uninterp spec fn parsed_event_id(s: Seq<char>) -> Option<(u128, u128)>;

/// What `PublicKey::parse` makes of a text, as the two halves of the key.
pub uninterp spec fn parsed_public_key(s: Seq<char>) -> Option<(u128, u128)>;

/// `nostr_sdk::EventId::parse` reads hexadecimal text, bech32 and nostr URIs. What it makes of a
/// text depends on the text alone; 64 hexadecimal digits are read as the bytes they denote.
#[verifier::external_body]
fn parse_event_id(s: &str) -> (r: Option<(u128, u128)>)
    ensures
        r == parsed_event_id(s@),
        s@.len() == 64 && is_hex(s@) ==> r == Some(
            (hex_value(s@.take(32)) as u128, hex_value(s@.skip(32)) as u128),
        ),
{
    let bytes = nostr_sdk::EventId::parse(s).ok()?.to_bytes();
    let hi = u128::from_be_bytes(bytes[..16].try_into().ok()?);
    let lo = u128::from_be_bytes(bytes[16..].try_into().ok()?);
    Some((hi, lo))
}

/// `nostr_sdk::PublicKey::parse` reads hexadecimal text, bech32 and nostr URIs. What it makes of a
/// text depends on the text alone; 64 hexadecimal digits are read as the bytes they denote.
#[verifier::external_body]
fn parse_public_key(s: &str) -> (r: Option<(u128, u128)>)
    ensures
        r == parsed_public_key(s@),
        s@.len() == 64 && is_hex(s@) ==> r == Some(
            (hex_value(s@.take(32)) as u128, hex_value(s@.skip(32)) as u128),
        ),
{
    let bytes = nostr_sdk::PublicKey::parse(s).ok()?.to_bytes();
    let hi = u128::from_be_bytes(bytes[..16].try_into().ok()?);
    let lo = u128::from_be_bytes(bytes[16..].try_into().ok()?);
    Some((hi, lo))
}

/// The id that a text denotes: hexadecimal digits stand for themselves, and of any other text
/// the parser decides.
pub open spec fn event_id_of(s: Seq<char>) -> Option<EventId> {
    if s.len() == 64 && is_hex(s) {
        Some(EventId { hi: hex_value(s.take(32)) as u128, lo: hex_value(s.skip(32)) as u128 })
    } else {
        match parsed_event_id(s) {
            Some((hi, lo)) => Some(EventId { hi, lo }),
            None => None,
        }
    }
}

/// The key that a text denotes: hexadecimal digits stand for themselves, and of any other text
/// the parser decides.
pub open spec fn public_key_of(s: Seq<char>) -> Option<PublicKey> {
    if s.len() == 64 && is_hex(s) {
        Some(PublicKey { hi: hex_value(s.take(32)) as u128, lo: hex_value(s.skip(32)) as u128 })
    } else {
        match parsed_public_key(s) {
            Some((hi, lo)) => Some(PublicKey { hi, lo }),
            None => None,
        }
    }
}

impl EventId {
    pub open spec fn text(self) -> Seq<char> {
        id_text(self.hi, self.lo)
    }

    /// The order of the bytes.
    pub open spec fn leq(self, other: EventId) -> bool {
        self.hi < other.hi || (self.hi == other.hi && self.lo <= other.lo)
    }

    pub fn all_zeros() -> (r: EventId)
        ensures
            r == (EventId { hi: 0, lo: 0 }),
    {
        EventId { hi: 0, lo: 0 }
    }

    pub fn parse(s: &str) -> (r: Option<EventId>)
        ensures
            r == event_id_of(s@),
    {
        match parse_event_id(s) {
            Some((hi, lo)) => Some(EventId { hi, lo }),
            None => None,
        }
    }

    pub fn to_string(&self) -> (r: String)
        ensures
            r@ == self.text(),
    {
        id_to_text(self.hi, self.lo)
    }

    pub fn at_most(&self, other: &EventId) -> (r: bool)
        ensures
            r == self.leq(*other),
    {
        self.hi < other.hi || (self.hi == other.hi && self.lo <= other.lo)
    }
}

impl PublicKey {
    pub open spec fn text(self) -> Seq<char> {
        id_text(self.hi, self.lo)
    }

    pub fn parse(s: &str) -> (r: Option<PublicKey>)
        ensures
            r == public_key_of(s@),
    {
        match parse_public_key(s) {
            Some((hi, lo)) => Some(PublicKey { hi, lo }),
            None => None,
        }
    }

    pub fn to_string(&self) -> (r: String)
        ensures
            r@ == self.text(),
    {
        id_to_text(self.hi, self.lo)
    }
}

/// The text of an id is read back as that id.
pub proof fn event_id_round_trip(id: EventId)
    ensures
        event_id_of(id.text()) == Some(id),
{
    lemma_id_text(id.hi, id.lo);
}

/// The text of a key is read back as that key.
pub proof fn public_key_round_trip(key: PublicKey)
    ensures
        public_key_of(key.text()) == Some(key),
{
    lemma_id_text(key.hi, key.lo);
}

pub fn has_id(ids: &Vec<EventId>, id: EventId) -> (r: bool)
    ensures
        r == ids@.contains(id),
{
    let mut i: usize = 0;
    while i < ids.len()
        invariant
            0 <= i <= ids.len(),
            forall|k: int| 0 <= k < i ==> ids@[k] != id,
        decreases ids.len() - i,
    {
        if ids[i] == id {
            assert(ids@[i as int] == id);
            return true;
        }
        i += 1;
    }
    false
}

// ---------------------------------------------------------------------------
// Tags

/// A tag of an event: a kind and values, at least the kind.
#[derive(Debug)]
pub struct Tag {
    values: Vec<String>,
}

pub type TagView = Seq<Seq<char>>;

impl View for Tag {
    type V = Seq<Seq<char>>;

    closed spec fn view(&self) -> Seq<Seq<char>> {
        views(self.values@)
    }
}

/// The value behind the kind of a tag.
pub open spec fn tag_content(tag: TagView) -> Option<Seq<char>> {
    if tag.len() > 1 {
        Some(tag[1])
    } else {
        None
    }
}

/// Whether the kind of a tag is `kind`.
pub open spec fn tag_is(tag: TagView, kind: Seq<char>) -> bool {
    tag.len() > 0 && tag[0] == kind
}

/// The views of an optional text.
pub open spec fn text_option(s: Option<&String>) -> Option<Seq<char>> {
    match s {
        Some(t) => Some(t@),
        None => None,
    }
}

impl Tag {
    #[verifier::type_invariant]
    spec fn nonempty(self) -> bool {
        self.values.len() > 0
    }

    /// A tag of the given values, if there are any.
    pub fn parse(values: Vec<String>) -> (r: Option<Tag>)
        ensures
            match r {
                Some(t) => t@ == views(values@) && values@.len() > 0,
                None => values@.len() == 0,
            },
    {
        if values.len() == 0 {
            None
        } else {
            Some(Tag { values })
        }
    }

    /// A tag with a kind and one value.
    pub fn custom(kind: &str, value: String) -> (r: Tag)
        ensures
            r@ == seq![kind@, value@],
    {
        let mut values: Vec<String> = Vec::new();
        values.push(kind.to_string());
        values.push(value);
        let r: Tag = Tag { values };
        assert(r@ =~= seq![kind@, value@]);
        r
    }

    /// Adds a value at the end.
    pub fn with(self, value: String) -> (r: Tag)
        ensures
            r@ == self@.push(value@),
    {
        broadcast use group_views;

        let mut values: Vec<String> = self.values;
        values.push(value);
        Tag { values }
    }

    /// A tag that refers to an event.
    pub fn event(id: EventId) -> (r: Tag)
        ensures
            r@ == seq!["e"@, id.text()],
    {
        Tag::custom("e", id.to_string())
    }

    /// A tag that refers to a person.
    pub fn public_key(key: PublicKey) -> (r: Tag)
        ensures
            r@ == seq!["p"@, key.text()],
    {
        Tag::custom("p", key.to_string())
    }

    pub fn as_slice(&self) -> (r: &Vec<String>)
        ensures
            views(r@) == self@,
    {
        &self.values
    }

    pub fn get(&self, index: usize) -> (r: Option<&String>)
        ensures
            match r {
                Some(s) => index < self@.len() && s@ == self@[index as int],
                None => index >= self@.len(),
            },
    {
        if index < self.values.len() {
            Some(&self.values[index])
        } else {
            None
        }
    }

    pub fn content(&self) -> (r: Option<&String>)
        ensures
            text_option(r) == tag_content(self@),
    {
        self.get(1)
    }

    pub fn is_kind(&self, kind: &str) -> (r: bool)
        ensures
            r == tag_is(self@, kind@),
    {
        match self.get(0) {
            Some(s) => same_text(s.as_str(), kind),
            None => false,
        }
    }

    pub fn same(&self, other: &Tag) -> (r: bool)
        ensures
            r == (self@ == other@),
    {
        crate::text::same_texts(&self.values, &other.values)
    }
}

impl Clone for Tag {
    fn clone(&self) -> (r: Tag)
        ensures
            r@ == self@,
    {
        proof {
            use_type_invariant(self);
        }
        Tag { values: clone_texts(&self.values) }
    }
}

impl PartialEq for Tag {
    fn eq(&self, other: &Tag) -> (r: bool) {
        self.same(other)
    }
}

impl vstd::std_specs::cmp::PartialEqSpecImpl for Tag {
    open spec fn obeys_eq_spec() -> bool {
        true
    }

    open spec fn eq_spec(&self, other: &Tag) -> bool {
        self@ == other@
    }
}

impl Ordered for Tag {
    open spec fn leq(a: TagView, b: TagView) -> bool {
        crate::text::texts_leq(a, b)
    }

    proof fn leq_total(a: TagView, b: TagView) {
        crate::text::lemma_texts_leq_total(a, b);
    }

    proof fn leq_transitive(a: TagView, b: TagView, c: TagView) {
        crate::text::lemma_texts_leq_transitive(a, b, c);
    }

    fn at_most(&self, other: &Self) -> (r: bool) {
        crate::text::texts_at_most(&self.values, &other.values)
    }
}

pub fn clone_texts(v: &Vec<String>) -> (r: Vec<String>)
    ensures
        views(r@) == views(v@),
        r@.len() == v@.len(),
{
    broadcast use group_views;

    let mut r: Vec<String> = Vec::new();
    let mut i: usize = 0;
    assert(views(v@).take(0) =~= Seq::<Seq<char>>::empty());
    while i < v.len()
        invariant
            0 <= i <= v.len(),
            r@.len() == i,
            views(r@) == views(v@).take(i as int),
        decreases v.len() - i,
    {
        r.push(v[i].clone());
        assert(views(v@).take(i as int).push(views(v@)[i as int]) =~= views(v@).take(i + 1));
        i += 1;
    }
    assert(views(v@).take(v@.len() as int) =~= views(v@));
    r
}

pub fn clone_tags(v: &Vec<Tag>) -> (r: Vec<Tag>)
    ensures
        views(r@) == views(v@),
{
    broadcast use group_views;

    let mut r: Vec<Tag> = Vec::new();
    let mut i: usize = 0;
    assert(views(v@).take(0) =~= Seq::<TagView>::empty());
    while i < v.len()
        invariant
            0 <= i <= v.len(),
            views(r@) == views(v@).take(i as int),
        decreases v.len() - i,
    {
        r.push(v[i].clone());
        assert(views(v@).take(i as int).push(views(v@)[i as int]) =~= views(v@).take(i + 1));
        i += 1;
    }
    assert(views(v@).take(v@.len() as int) =~= views(v@));
    r
}

/// What `str::to_lowercase` makes of a text.
pub uninterp spec fn lowercase(s: Seq<char>) -> Seq<char>;

/// `nostr_sdk::Tag::hashtag` makes a `t` tag of the lower-case form of its argument, as
/// `str::to_lowercase` has it; on ASCII text that is the ASCII lower-case form.
#[verifier::external_body]
fn lowercase_hashtag(s: &str) -> (r: String)
    ensures
        r@ == lowercase(s@),
        (forall|i: int| 0 <= i < s@.len() ==> (#[trigger] s@[i] as u32) < 0x80) ==> r@
            == crate::text::lower(s@),
{
    nostr_sdk::Tag::hashtag(s).content().unwrap_or_default().to_string()
}

impl Tag {
    /// A hashtag in lower case.
    pub fn hashtag(s: &str) -> (r: Tag)
        ensures
            r@ == seq!["t"@, lowercase(s@)],
    {
        Tag::custom("t", lowercase_hashtag(s))
    }
}

// ---------------------------------------------------------------------------
// Events

/// An event with its signature, which vouches for the id and takes no part in its meaning.
#[derive(Debug)]
pub struct Event {
    pub id: EventId,
    pub pubkey: PublicKey,
    pub created_at: u64,
    pub kind: u16,
    pub tags: Vec<Tag>,
    pub content: String,
    pub sig: Vec<u8>,
}

/// What an event says.
#[verifier::ext_equal]
pub struct EventView {
    pub id: EventId,
    pub pubkey: PublicKey,
    pub created_at: u64,
    pub kind: u16,
    pub tags: Seq<TagView>,
    pub content: Seq<char>,
}

impl View for Event {
    type V = EventView;

    open spec fn view(&self) -> EventView {
        EventView {
            id: self.id,
            pubkey: self.pubkey,
            created_at: self.created_at,
            kind: self.kind,
            tags: views(self.tags@),
            content: self.content@,
        }
    }
}

impl Clone for Event {
    fn clone(&self) -> (r: Event)
        ensures
            r@ == self@,
            r.sig@ == self.sig@,
    {
        let sig: Vec<u8> = self.sig.clone();
        assert(sig@ =~= self.sig@);
        Event {
            id: self.id,
            pubkey: self.pubkey,
            created_at: self.created_at,
            kind: self.kind,
            tags: clone_tags(&self.tags),
            content: self.content.clone(),
            sig,
        }
    }
}

fn same_tags(a: &Vec<Tag>, b: &Vec<Tag>) -> (r: bool)
    ensures
        r == (views(a@) == views(b@)),
{
    if a.len() != b.len() {
        assert(views(a@).len() != views(b@).len());
        return false;
    }
    let mut i: usize = 0;
    while i < a.len()
        invariant
            0 <= i <= a.len(),
            a.len() == b.len(),
            forall|k: int| 0 <= k < i ==> #[trigger] views(a@)[k] == views(b@)[k],
        decreases a.len() - i,
    {
        if !a[i].same(&b[i]) {
            assert(views(a@)[i as int] != views(b@)[i as int]);
            return false;
        }
        i += 1;
    }
    assert(views(a@) =~= views(b@));
    true
}

impl Event {
    /// Whether the signature is one of the author for the id.
    pub open spec fn signed(&self) -> bool {
        signature_holds(
            self.pubkey.hi,
            self.pubkey.lo,
            self.id.hi,
            self.id.lo,
            self.sig@,
        )
    }

    pub fn is_signed(&self) -> (r: bool)
        ensures
            r == self.signed(),
    {
        verify_signature(&self.pubkey, &self.id, &self.sig)
    }

    /// Whether two events say the same.
    pub fn same(&self, other: &Event) -> (r: bool)
        ensures
            r == (self@ == other@),
    {
        self.id == other.id && self.pubkey == other.pubkey && self.created_at == other.created_at
            && self.kind == other.kind && same_text(self.content.as_str(), other.content.as_str())
            && same_tags(&self.tags, &other.tags)
    }
}

fn same_bytes(a: &Vec<u8>, b: &Vec<u8>) -> (r: bool)
    ensures
        r == (a@ == b@),
{
    if a.len() != b.len() {
        return false;
    }
    let mut i: usize = 0;
    while i < a.len()
        invariant
            0 <= i <= a.len(),
            a.len() == b.len(),
            forall|k: int| 0 <= k < i ==> a@[k] == b@[k],
        decreases a.len() - i,
    {
        if a[i] != b[i] {
            return false;
        }
        i += 1;
    }
    assert(a@ =~= b@);
    true
}

/// Events are equal if they say the same and have the same signature.
impl PartialEq for Event {
    fn eq(&self, other: &Event) -> (r: bool) {
        self.same(other) && same_bytes(&self.sig, &other.sig)
    }
}

impl vstd::std_specs::cmp::PartialEqSpecImpl for Event {
    open spec fn obeys_eq_spec() -> bool {
        true
    }

    open spec fn eq_spec(&self, other: &Event) -> bool {
        self@ == other@ && self.sig@ == other.sig@
    }
}

/// Events are put newest first, and by id where they were created in the same second.
impl Ordered for Event {
    open spec fn leq(a: EventView, b: EventView) -> bool {
        a.created_at > b.created_at || (a.created_at == b.created_at && a.id.leq(b.id))
    }

    proof fn leq_total(a: EventView, b: EventView) {
    }

    proof fn leq_transitive(a: EventView, b: EventView, c: EventView) {
    }

    fn at_most(&self, other: &Self) -> (r: bool) {
        self.created_at > other.created_at || (self.created_at == other.created_at
            && self.id.at_most(&other.id))
    }
}

/// Whether all events are signed by their authors.
pub open spec fn all_signed(events: Seq<Event>) -> bool {
    forall|i: int| 0 <= i < events.len() ==> (#[trigger] events[i]).signed()
}

pub fn clone_events(v: &Vec<Event>) -> (r: Vec<Event>)
    ensures
        views(r@) == views(v@),
        forall|i: int| 0 <= i < v.len() ==> (#[trigger] r[i]).sig@ == v[i].sig@,
{
    broadcast use group_views;

    let mut r: Vec<Event> = Vec::new();
    let mut i: usize = 0;
    assert(views(v@).take(0) =~= Seq::<EventView>::empty());
    while i < v.len()
        invariant
            0 <= i <= v.len(),
            views(r@) == views(v@).take(i as int),
            forall|k: int| 0 <= k < i ==> (#[trigger] r[k]).sig@ == v[k].sig@,
        decreases v.len() - i,
    {
        r.push(v[i].clone());
        assert(views(v@).take(i as int).push(views(v@)[i as int]) =~= views(v@).take(i + 1));
        i += 1;
    }
    assert(views(v@).take(v@.len() as int) =~= views(v@));
    r
}

/// What an event is to say, before it is signed.
#[derive(Debug)]
pub struct EventBuilder {
    pub kind: u16,
    pub content: String,
    pub tags: Vec<Tag>,
    pub created_at: Option<u64>,
}

#[verifier::ext_equal]
pub struct BuilderView {
    pub kind: u16,
    pub content: Seq<char>,
    pub tags: Seq<TagView>,
    pub created_at: Option<u64>,
}

impl View for EventBuilder {
    type V = BuilderView;

    open spec fn view(&self) -> BuilderView {
        BuilderView {
            kind: self.kind,
            content: self.content@,
            tags: views(self.tags@),
            created_at: self.created_at,
        }
    }
}

impl BuilderView {
    pub open spec fn new(kind: u16, content: Seq<char>) -> BuilderView {
        BuilderView { kind, content, tags: Seq::empty(), created_at: None }
    }

    pub open spec fn tags(self, tags: Seq<TagView>) -> BuilderView {
        BuilderView { tags: self.tags + tags, ..self }
    }

    pub open spec fn custom_created_at(self, time: u64) -> BuilderView {
        BuilderView { created_at: Some(time), ..self }
    }

    /// The event that `key` makes of this at the time `clock`.
    pub open spec fn signed(self, key: PublicKey, clock: u64) -> EventView {
        let created_at = match self.created_at {
            Some(t) => t,
            None => clock,
        };
        let (hi, lo) = event_hash(key.hi, key.lo, created_at, self.kind, self.tags, self.content);
        EventView {
            id: EventId { hi, lo },
            pubkey: key,
            created_at,
            kind: self.kind,
            tags: self.tags,
            content: self.content,
        }
    }
}

impl EventBuilder {
    pub fn new(kind: u16, content: &str) -> (r: EventBuilder)
        ensures
            r@ == BuilderView::new(kind, content@),
    {
        broadcast use group_views;

        EventBuilder { kind, content: content.to_string(), tags: Vec::new(), created_at: None }
    }

    pub fn tags(self, tags: Vec<Tag>) -> (r: EventBuilder)
        ensures
            r@ == self@.tags(views(tags@)),
    {
        broadcast use group_views;

        let mut all: Vec<Tag> = self.tags;
        let mut more: Vec<Tag> = tags;
        all.append(&mut more);
        EventBuilder { kind: self.kind, content: self.content, tags: all, created_at: self.created_at }
    }

    pub fn custom_created_at(self, time: u64) -> (r: EventBuilder)
        ensures
            r@ == self@.custom_created_at(time),
    {
        EventBuilder {
            kind: self.kind,
            content: self.content,
            tags: self.tags,
            created_at: Some(time),
        }
    }
}

// ---------------------------------------------------------------------------
// Signing

/// The public key that belongs to a secret key, if those bytes are one.
pub uninterp spec fn key_of_secret(secret: Seq<u8>) -> Option<(u128, u128)>;

/// The secret key that a text stands for, if it does for one.
pub uninterp spec fn secret_of_text(text: Seq<char>) -> Option<Seq<u8>>;

/// The id of an event: the hash of its author, time, kind, tags and content.
pub uninterp spec fn event_hash(
    key_hi: u128,
    key_lo: u128,
    created_at: u64,
    kind: u16,
    tags: Seq<Seq<Seq<char>>>,
    content: Seq<char>,
) -> (u128, u128);

/// Whether a signature is one of the key for the id.
pub uninterp spec fn signature_holds(
    key_hi: u128,
    key_lo: u128,
    id_hi: u128,
    id_lo: u128,
    sig: Seq<u8>,
) -> bool;

/// `nostr_sdk::Event::verify_signature`: whether the signature of an event holds depends on its
/// author, its id and the bytes of the signature alone. What no key or signature can be made of
/// does not hold.
#[verifier::external_body]
fn verify_signature(key: &PublicKey, id: &EventId, sig: &Vec<u8>) -> (r: bool)
    ensures
        r == signature_holds(key.hi, key.lo, id.hi, id.lo, sig@),
{
    let key = [key.hi.to_be_bytes(), key.lo.to_be_bytes()].concat();
    let id = [id.hi.to_be_bytes(), id.lo.to_be_bytes()].concat();
    let Ok(key) = nostr_sdk::PublicKey::from_slice(&key) else { return false };
    let Ok(id) = nostr_sdk::EventId::from_slice(&id) else { return false };
    let Ok(sig) = nostr_sdk::secp256k1::schnorr::Signature::from_slice(sig) else { return false };
    let time = nostr_sdk::Timestamp::from(0);
    let kind = nostr_sdk::Kind::from(0u16);
    nostr_sdk::Event::new(id, key, time, kind, Vec::new(), "", sig).verify_signature()
}

/// `SecretKey::from_slice` and `Keys::public_key` of `nostr_sdk`: whether the bytes are a secret
/// key, and the public key of one, depends on the bytes alone.
#[verifier::external_body]
fn derive_key(secret: &Vec<u8>) -> (r: Option<(u128, u128)>)
    ensures
        r == key_of_secret(secret@),
{
    let secret = nostr_sdk::SecretKey::from_slice(secret).ok()?;
    let bytes = nostr_sdk::Keys::new(secret).public_key().to_bytes();
    let hi = u128::from_be_bytes(bytes[..16].try_into().ok()?);
    let lo = u128::from_be_bytes(bytes[16..].try_into().ok()?);
    Some((hi, lo))
}

/// `nostr_sdk::Keys::from_str` reads a secret key in hexadecimal digits or as an `nsec`: what it
/// reads depends on the text alone, and the bytes of it are a secret key.
#[verifier::external_body]
fn parse_secret(text: &str) -> (r: Option<Vec<u8>>)
    ensures
        match r {
            Some(s) => secret_of_text(text@) == Some(s@) && key_of_secret(s@) is Some,
            None => secret_of_text(text@) is None,
        },
{
    let keys = text.parse::<nostr_sdk::Keys>().ok()?;
    Some(keys.secret_key().to_secret_bytes().to_vec())
}

/// `nostr_sdk::Keys::generate` draws a secret key at random: which one is open, but it is one.
#[verifier::external_body]
fn random_secret() -> (r: Vec<u8>)
    ensures
        key_of_secret(r@) is Some,
{
    nostr_sdk::Keys::generate().secret_key().to_secret_bytes().to_vec()
}

/// `nostr_sdk::EventBuilder::sign_with_keys`, with the author kept among the tags, makes an event
/// of what it is given; its id is the hash of that. Which signature it makes is open, as a random
/// number goes into it, but it is one of the key for the id.
#[verifier::external_body]
fn sign_event(secret: &Vec<u8>, created_at: u64, kind: u16, tags: &Vec<Tag>, content: &str) -> (r: (
    (u128, u128),
    Vec<u8>,
))
    requires
        key_of_secret(secret@) is Some,
    ensures
        match key_of_secret(secret@) {
            Some((hi, lo)) => r.0 == event_hash(hi, lo, created_at, kind, views(tags@), content@)
                && signature_holds(hi, lo, r.0.0, r.0.1, r.1@),
            None => true,
        },
{
    let keys = nostr_sdk::Keys::new(nostr_sdk::SecretKey::from_slice(secret).unwrap());
    let event = nostr_sdk::EventBuilder::new(nostr_sdk::Kind::from(kind), content)
        .tags(tags.iter().map(|t| nostr_sdk::Tag::parse(&t.values).unwrap()))
        .custom_created_at(nostr_sdk::Timestamp::from(created_at))
        .allow_self_tagging()
        .sign_with_keys(&keys).unwrap();
    let bytes = event.id.to_bytes();
    let hi = u128::from_be_bytes(bytes[..16].try_into().unwrap());
    let lo = u128::from_be_bytes(bytes[16..].try_into().unwrap());
    ((hi, lo), event.sig.serialize().to_vec())
}

/// Where the key of a user comes from.
#[derive(Clone, Copy, Debug, PartialEq, Eq, Structural)]
pub enum KeyOrigin {
    Stored,
    Entered,
    Generated,
}

/// Why a user has no key.
#[derive(Clone, Copy, Debug, PartialEq, Eq, Structural)]
pub enum KeyError {
    InvalidStored,
    InvalidEntered,
}

/// A key pair that events are signed with.
#[derive(Debug)]
pub struct Signer {
    secret: Vec<u8>,
    pubkey: PublicKey,
}

impl Clone for Signer {
    fn clone(&self) -> (r: Signer)
        ensures
            r.key() == self.key(),
            r.secret_key() == self.secret_key(),
    {
        proof {
            use_type_invariant(self);
        }
        let secret: Vec<u8> = self.secret.clone();
        assert(secret@ =~= self.secret@);
        Signer { secret, pubkey: self.pubkey }
    }
}

impl Signer {
    #[verifier::type_invariant]
    spec fn belongs(self) -> bool {
        key_of_secret(self.secret@) == Some((self.pubkey.hi, self.pubkey.lo))
    }

    pub closed spec fn key(&self) -> PublicKey {
        self.pubkey
    }

    pub closed spec fn secret_key(&self) -> Seq<u8> {
        self.secret@
    }

    /// Whether this is the signer with the given secret key.
    pub open spec fn has_secret(&self, secret: Seq<u8>) -> bool {
        self.secret_key() == secret && key_of_secret(secret) == Some(
            (self.key().hi, self.key().lo),
        )
    }

    /// The signer with the given secret key, if those bytes are one.
    pub fn from_secret(secret: Vec<u8>) -> (r: Option<Signer>)
        ensures
            match r {
                Some(s) => s.has_secret(secret@),
                None => key_of_secret(secret@) is None,
            },
    {
        match derive_key(&secret) {
            Some((hi, lo)) => Some(Signer { secret, pubkey: PublicKey { hi, lo } }),
            None => None,
        }
    }

    /// The signer with the secret key that a text stands for.
    pub fn parse(text: &str) -> (r: Option<Signer>)
        ensures
            match secret_of_text(text@) {
                Some(secret) => r matches Some(s) && s.has_secret(secret),
                None => r is None,
            },
    {
        match parse_secret(text) {
            Some(secret) => Signer::from_secret(secret),
            None => None,
        }
    }

    /// The signer with the secret key in a file.
    pub fn from_file(text: &str) -> (r: Option<Signer>)
        ensures
            match secret_of_text(trimmed(text@)) {
                Some(secret) => r matches Some(s) && s.has_secret(secret),
                None => r is None,
            },
    {
        let text: String = trim(text);
        Signer::parse(text.as_str())
    }

    /// The signer of a user: with the secret key that is stored, else with the one that was
    /// entered, or with a new one if the line was left blank. A key that is not stored yet is to
    /// be.
    pub fn read(stored: Option<Vec<u8>>, line: &str) -> (r: Result<(Signer, KeyOrigin), KeyError>)
        ensures
            match stored {
                Some(secret) => if key_of_secret(secret@) is Some {
                    r matches Ok((s, KeyOrigin::Stored)) && s.has_secret(secret@)
                } else {
                    r == Err::<(Signer, KeyOrigin), _>(KeyError::InvalidStored)
                },
                None => if line@.len() == 0 {
                    r matches Ok((s, KeyOrigin::Generated)) && s.has_secret(s.secret_key())
                } else {
                    match secret_of_text(line@) {
                        Some(secret) => r matches Ok((s, KeyOrigin::Entered)) && s.has_secret(
                            secret,
                        ),
                        None => r == Err::<(Signer, KeyOrigin), _>(KeyError::InvalidEntered),
                    }
                },
            },
    {
        match stored {
            Some(secret) => match Signer::from_secret(secret) {
                Some(s) => Ok((s, KeyOrigin::Stored)),
                None => Err(KeyError::InvalidStored),
            },
            None => if line.is_empty() {
                Ok((Signer::generate(), KeyOrigin::Generated))
            } else {
                match Signer::parse(line) {
                    Some(s) => Ok((s, KeyOrigin::Entered)),
                    None => Err(KeyError::InvalidEntered),
                }
            },
        }
    }

    /// The secret key, to be stored.
    pub fn secret(&self) -> (r: &Vec<u8>)
        ensures
            r@ == self.secret_key(),
            self.has_secret(r@),
    {
        proof {
            use_type_invariant(self);
        }
        &self.secret
    }

    /// A signer with a new random key.
    pub fn generate() -> (r: Signer)
        ensures
            r.has_secret(r.secret_key()),
    {
        let secret: Vec<u8> = random_secret();
        let (hi, lo): (u128, u128) = derive_key(&secret).unwrap();
        Signer { secret, pubkey: PublicKey { hi, lo } }
    }

    pub fn pubkey(&self) -> (r: PublicKey)
        ensures
            r == self.key(),
    {
        self.pubkey
    }

    /// Signs an event that is created at the time `clock`, unless the builder has a time.
    pub fn sign(&self, builder: EventBuilder, clock: u64) -> (r: Event)
        ensures
            r@ == builder@.signed(self.key(), clock),
            r.signed(),
    {
        proof {
            use_type_invariant(self);
        }
        let created_at: u64 = match builder.created_at {
            Some(t) => t,
            None => clock,
        };
        let (id, sig) = sign_event(
            &self.secret,
            created_at,
            builder.kind,
            &builder.tags,
            builder.content.as_str(),
        );
        Event {
            id: EventId { hi: id.0, lo: id.1 },
            pubkey: self.pubkey,
            created_at,
            kind: builder.kind,
            tags: builder.tags,
            content: builder.content,
            sig,
        }
    }
}

} // verus!
