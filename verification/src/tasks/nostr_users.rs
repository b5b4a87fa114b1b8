//! Known users and their names.

use crate::lists::{group_views, sort, sorted, views, Ordered};
use crate::nostr::{public_key_of, PublicKey};
use crate::text::{
    begins_with, byte_len, cut, lower, shorter_than, starts_with, to_lower, trim, trimmed, truncate,
};
use vstd::prelude::*;

verus! {

/// What a user tells of themselves.
#[derive(Debug)]
pub struct Metadata {
    pub name: Option<String>,
    pub display_name: Option<String>,
}

/// A known user, with the time of their last metadata: zero without any.
#[derive(Debug)]
pub struct User {
    pub key: PublicKey,
    pub meta: Metadata,
    pub time: u64,
}

#[verifier::ext_equal]
pub struct MetaView {
    pub name: Option<Seq<char>>,
    pub display_name: Option<Seq<char>>,
}

#[verifier::ext_equal]
pub struct UserView {
    pub key: PublicKey,
    pub meta: MetaView,
    pub time: u64,
}

pub open spec fn owned_text(s: Option<String>) -> Option<Seq<char>> {
    match s {
        Some(t) => Some(t@),
        None => None,
    }
}

impl View for Metadata {
    type V = MetaView;

    open spec fn view(&self) -> MetaView {
        MetaView { name: owned_text(self.name), display_name: owned_text(self.display_name) }
    }
}

impl View for User {
    type V = UserView;

    open spec fn view(&self) -> UserView {
        UserView { key: self.key, meta: self.meta@, time: self.time }
    }
}

pub type UsersView = Seq<UserView>;

/// Where the user with the given key stands, or behind the end.
pub open spec fn user_at(users: UsersView, key: PublicKey) -> int
    decreases users.len(),
{
    if users.len() == 0 || users[0].key == key {
        0
    } else {
        1 + user_at(users.drop_first(), key)
    }
}

proof fn lemma_user_at(users: UsersView, key: PublicKey, at: int)
    requires
        0 <= at <= users.len(),
        forall|i: int| 0 <= i < at ==> (#[trigger] users[i]).key != key,
        at < users.len() ==> users[at].key == key,
    ensures
        user_at(users, key) == at,
    decreases users.len(),
{
    if users.len() > 0 && users[0].key != key {
        let rest = users.drop_first();
        assert forall|i: int| 0 <= i < at - 1 implies (#[trigger] rest[i]).key != key by {
            assert(users[i + 1].key != key);
        }
        lemma_user_at(rest, key, at - 1);
    }
}

pub proof fn lemma_user_found(users: UsersView, key: PublicKey)
    ensures
        0 <= user_at(users, key) <= users.len(),
        user_at(users, key) < users.len() ==> users[user_at(users, key)].key == key,
        forall|i: int| 0 <= i < user_at(users, key) ==> (#[trigger] users[i]).key != key,
    decreases users.len(),
{
    if users.len() > 0 && users[0].key != key {
        let rest = users.drop_first();
        lemma_user_found(rest, key);
        let at = user_at(users, key);
        assert forall|i: int| 0 <= i < at implies (#[trigger] users[i]).key != key by {
            if i > 0 {
                assert(rest[i - 1].key != key);
            }
        }
    }
}

/// The metadata of a user, if they are known.
pub open spec fn meta_of(users: UsersView, key: PublicKey) -> Option<MetaView> {
    let at: int = user_at(users, key);
    if at < users.len() {
        Some(users[at].meta)
    } else {
        None
    }
}

/// The time of the last metadata of a user, or zero.
pub open spec fn user_time(users: UsersView, key: PublicKey) -> u64 {
    let at: int = user_at(users, key);
    if at < users.len() {
        users[at].time
    } else {
        0
    }
}

/// The name of a user, or the start of their key.
pub open spec fn username(users: UsersView, key: PublicKey) -> Seq<char> {
    match meta_of(users, key) {
        Some(meta) => match meta.name {
            Some(name) => name,
            None => cut(key.text(), 6),
        },
        None => cut(key.text(), 6),
    }
}

/// The name that a user wants to be shown by, with the start of their key, or the whole key.
pub open spec fn displayname(users: UsersView, key: PublicKey) -> Seq<char> {
    match meta_of(users, key) {
        Some(meta) => {
            let shown = match meta.display_name {
                Some(n) => Some(n),
                None => meta.name,
            };
            match shown {
                Some(name) => name + "@"@ + cut(key.text(), 6),
                None => key.text(),
            }
        },
        None => key.text(),
    }
}

/// `users` with the given metadata, unless newer is known.
pub open spec fn with_metadata(
    users: UsersView,
    key: PublicKey,
    meta: MetaView,
    time: u64,
) -> UsersView {
    let at: int = user_at(users, key);
    if user_time(users, key) >= time {
        users
    } else if at < users.len() {
        users.update(at, UserView { key, meta, time })
    } else {
        users.push(UserView { key, meta, time })
    }
}

/// `users` with the user of the given key, who has no metadata if they are new.
pub open spec fn with_user(users: UsersView, key: PublicKey) -> UsersView {
    if user_at(users, key) < users.len() {
        users
    } else {
        users.push(
            UserView { key, meta: MetaView { name: None, display_name: None }, time: 0 },
        )
    }
}

pub open spec fn name_begins(name: Option<Seq<char>>, term: Seq<char>) -> bool {
    name matches Some(n) && begins_with(lower(n), term)
}

/// Whether a name of the user, or their key if the term is long enough, begins with the term.
pub open spec fn user_matches(user: UserView, term: Seq<char>) -> bool {
    ||| name_begins(user.meta.name, term)
    ||| name_begins(user.meta.display_name, term)
    ||| byte_len(term) > 4 && begins_with(user.key.text(), term)
}

/// A user that was found, with the time by which it is ranked.
#[derive(Clone, Copy, Debug)]
pub struct Found {
    pub key: PublicKey,
    pub time: u64,
}

impl View for Found {
    type V = (PublicKey, u64);

    open spec fn view(&self) -> (PublicKey, u64) {
        (self.key, self.time)
    }
}

/// Those with the latest metadata come first.
impl Ordered for Found {
    open spec fn leq(a: (PublicKey, u64), b: (PublicKey, u64)) -> bool {
        a.1 >= b.1
    }

    proof fn leq_total(a: (PublicKey, u64), b: (PublicKey, u64)) {
    }

    proof fn leq_transitive(a: (PublicKey, u64), b: (PublicKey, u64), c: (PublicKey, u64)) {
    }

    fn at_most(&self, other: &Self) -> (r: bool) {
        self.time >= other.time
    }
}

/// The users that match the term.
pub open spec fn matching_users(users: UsersView, term: Seq<char>) -> Seq<(PublicKey, u64)>
    decreases users.len(),
{
    if users.len() == 0 {
        Seq::empty()
    } else {
        let before = matching_users(users.drop_last(), term);
        if user_matches(users.last(), term) {
            before.push((users.last().key, users.last().time))
        } else {
            before
        }
    }
}

pub open spec fn keys_of(found: Seq<(PublicKey, u64)>) -> Seq<PublicKey> {
    Seq::new(found.len(), |i: int| found[i].0)
}

/// The keys of the users whose name or key begins with the given term, or whose key it is,
/// those with the latest metadata first.
pub open spec fn found_users(users: UsersView, text: Seq<char>) -> Seq<PublicKey> {
    let term = lower(trimmed(text));
    if term.len() == 0 {
        Seq::empty()
    } else {
        match public_key_of(term) {
            Some(key) => if user_at(users, key) < users.len() {
                seq![key]
            } else {
                Seq::empty()
            },
            None => keys_of(sorted::<Found>(matching_users(users, term))),
        }
    }
}

impl Metadata {
    pub fn new(name: Option<String>, display_name: Option<String>) -> (r: Metadata)
        ensures
            r@ == (MetaView { name: owned_text(name), display_name: owned_text(display_name) }),
    {
        Metadata { name, display_name }
    }
}

/// The known users, each of them once.
#[derive(Debug)]
pub struct NostrUsers {
    users: Vec<User>,
}

impl View for NostrUsers {
    type V = Seq<UserView>;

    closed spec fn view(&self) -> Seq<UserView> {
        views(self.users@)
    }
}

impl Default for NostrUsers {
    fn default() -> (r: NostrUsers)
        ensures
            r@ == Seq::<UserView>::empty(),
    {
        let r: NostrUsers = NostrUsers { users: Vec::new() };
        assert(r@ =~= Seq::<UserView>::empty());
        r
    }
}

fn optional_begins(name: &Option<String>, term: &str) -> (r: bool)
    ensures
        r == name_begins(owned_text(*name), term@),
{
    match name {
        Some(n) => {
            let l: String = to_lower(n.as_str());
            starts_with(l.as_str(), term)
        },
        None => false,
    }
}

impl NostrUsers {
    fn index_of(&self, key: PublicKey) -> (r: usize)
        ensures
            r == user_at(self@, key),
            r <= self.users.len(),
            r < self.users.len() ==> self.users[r as int].key == key,
    {
        let mut i: usize = 0;
        while i < self.users.len() && self.users[i].key != key
            invariant
                0 <= i <= self.users.len(),
                forall|k: int| 0 <= k < i ==> (#[trigger] self@[k]).key != key,
            decreases self.users.len() - i,
        {
            i += 1;
        }
        proof {
            assert(i < self.users.len() ==> self@[i as int] == self.users[i as int]@);
            lemma_user_at(self@, key, i as int);
        }
        i
    }

    /// The users whose name or key begins with the given term, with the name to show.
    pub fn find_user_with_displayname(&self, term: &str) -> (r: Vec<(PublicKey, String)>)
        ensures
            r@.len() == found_users(self@, term@).len(),
            forall|i: int| #![trigger r@[i]] 0 <= i < r@.len() ==> r@[i].0 == found_users(self@, term@)[i]
                && r@[i].1@ == displayname(self@, r@[i].0),
    {
        let found: Vec<PublicKey> = self.find_user(term);
        let mut r: Vec<(PublicKey, String)> = Vec::new();
        let mut i: usize = 0;
        while i < found.len()
            invariant
                0 <= i <= found.len(),
                found@ == found_users(self@, term@),
                r@.len() == i,
                forall|k: int| #![trigger r@[k]] 0 <= k < i ==> r@[k].0 == found@[k] && r@[k].1@ == displayname(
                    self@,
                    r@[k].0,
                ),
            decreases found.len() - i,
        {
            r.push((found[i], self.get_displayname(&found[i])));
            i += 1;
        }
        r
    }

    /// The users whose name or key begins with the given term.
    pub fn find_user(&self, term: &str) -> (r: Vec<PublicKey>)
        ensures
            r@ == found_users(self@, term@),
    {
        broadcast use group_views;

        let term: String = trim(term);
        let term: String = to_lower(term.as_str());
        let term: &str = term.as_str();
        let mut r: Vec<PublicKey> = Vec::new();
        if term.is_empty() {
            return r;
        }
        match PublicKey::parse(term) {
            Some(key) => {
                if self.index_of(key) < self.users.len() {
                    r.push(key);
                }
                assert(r@ =~= if user_at(self@, key) < self@.len() {
                    seq![key]
                } else {
                    Seq::empty()
                });
                return r;
            },
            None => {},
        }
        let mut found: Vec<Found> = Vec::new();
        let mut i: usize = 0;
        assert(self@.take(0) =~= Seq::<UserView>::empty());
        while i < self.users.len()
            invariant
                0 <= i <= self.users.len(),
                views(found@) == matching_users(self@.take(i as int), term@),
            decreases self.users.len() - i,
        {
            assert(self@.take(i + 1).drop_last() =~= self@.take(i as int));
            let user: &User = &self.users[i];
            assert(self@[i as int] == user@);
            let key: String = user.key.to_string();
            if optional_begins(&user.meta.name, term) || optional_begins(
                &user.meta.display_name,
                term,
            ) || (!shorter_than(term, 5) && starts_with(key.as_str(), term)) {
                found.push(Found { key: user.key, time: user.time });
            }
            i += 1;
        }
        assert(self@.take(self.users@.len() as int) =~= self@);
        let found: Vec<Found> = sort(found);
        let mut i: usize = 0;
        while i < found.len()
            invariant
                0 <= i <= found.len(),
                r@ == keys_of(views(found@)).take(i as int),
            decreases found.len() - i,
        {
            r.push(found[i].key);
            assert(keys_of(views(found@)).take(i as int).push(keys_of(views(found@))[i as int])
                =~= keys_of(views(found@)).take(i + 1));
            i += 1;
        }
        assert(keys_of(views(found@)).take(found@.len() as int) =~= keys_of(views(found@)));
        r
    }

    pub fn get_displayname(&self, pubkey: &PublicKey) -> (r: String)
        ensures
            r@ == displayname(self@, *pubkey),
    {
        let at: usize = self.index_of(*pubkey);
        let key: String = pubkey.to_string();
        if at < self.users.len() {
            let meta: &Metadata = &self.users[at].meta;
            assert(self@[at as int].meta == meta@);
            let shown: &Option<String> = match &meta.display_name {
                Some(_) => &meta.display_name,
                None => &meta.name,
            };
            match shown {
                Some(name) => {
                    let mut r: String = name.clone();
                    let short: String = truncate(key.as_str(), 6);
                    r.append("@");
                    r.append(short.as_str());
                    return r;
                },
                None => {},
            }
        }
        key
    }

    pub fn get_username(&self, pubkey: &PublicKey) -> (r: String)
        ensures
            r@ == username(self@, *pubkey),
    {
        let at: usize = self.index_of(*pubkey);
        if at < self.users.len() {
            let meta: &Metadata = &self.users[at].meta;
            assert(self@[at as int].meta == meta@);
            match &meta.name {
                Some(name) => {
                    return name.clone();
                },
                None => {},
            }
        }
        let key: String = pubkey.to_string();
        truncate(key.as_str(), 6)
    }

    fn get_user_time(&self, pubkey: PublicKey) -> (r: u64)
        ensures
            r == user_time(self@, pubkey),
    {
        let at: usize = self.index_of(pubkey);
        if at < self.users.len() {
            assert(self@[at as int].time == self.users[at as int].time);
            self.users[at].time
        } else {
            0
        }
    }

    /// Takes in metadata of a user, unless it is not newer than what is known.
    pub fn insert(&mut self, pubkey: PublicKey, metadata: Metadata, timestamp: u64)
        ensures
            final(self)@ == with_metadata(old(self)@, pubkey, metadata@, timestamp),
    {
        broadcast use group_views;

        if self.get_user_time(pubkey) < timestamp {
            let at: usize = self.index_of(pubkey);
            let user: User = User { key: pubkey, meta: metadata, time: timestamp };
            if at < self.users.len() {
                self.users.set(at, user);
            } else {
                self.users.push(user);
            }
        }
    }

    /// Makes a user known.
    pub fn create(&mut self, pubkey: PublicKey)
        ensures
            final(self)@ == with_user(old(self)@, pubkey),
    {
        broadcast use group_views;

        if self.index_of(pubkey) == self.users.len() {
            self.users.push(
                User { key: pubkey, meta: Metadata { name: None, display_name: None }, time: 0 },
            );
        }
    }
}

pub open spec fn keys_unique(users: UsersView) -> bool {
    forall|i: int, j: int|
        0 <= i < j < users.len() ==> (#[trigger] users[i]).key != (#[trigger] users[j]).key
}

/// No operation makes a user occur twice.
pub proof fn users_stay_unique(users: UsersView, key: PublicKey, meta: MetaView, time: u64)
    requires
        keys_unique(users),
    ensures
        keys_unique(with_user(users, key)),
        keys_unique(with_metadata(users, key, meta, time)),
{
    lemma_user_found(users, key);
}

/// Metadata that is newer than what is known takes its place, and older metadata changes nothing.
pub proof fn newest_metadata_wins(users: UsersView, key: PublicKey, meta: MetaView, time: u64)
    ensures
        time > user_time(users, key) ==> meta_of(with_metadata(users, key, meta, time), key)
            == Some(meta) && user_time(with_metadata(users, key, meta, time), key) == time,
        time <= user_time(users, key) ==> with_metadata(users, key, meta, time) == users,
        with_metadata(with_metadata(users, key, meta, time), key, meta, time) == with_metadata(
            users,
            key,
            meta,
            time,
        ),
{
    lemma_user_found(users, key);
    let after = with_metadata(users, key, meta, time);
    if time > user_time(users, key) {
        lemma_user_at(after, key, user_at(users, key));
    }
}

} // verus!
