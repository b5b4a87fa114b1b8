//! What holds of finding users and of their names.

use crate::lists::{sorted, sorting_orders_and_keeps};
use crate::nostr::{public_key_of, PublicKey};
use crate::tasks::nostr_users::{
    displayname, found_users, keys_of, keys_unique, lemma_user_found, matching_users, user_at,
    user_matches, username, with_metadata, with_user, Found, MetaView, UserView, UsersView,
};
use crate::tasks::search_laws::{lemma_reads_at, reads_at};
use crate::text::{byte_len, lower, trimmed};
use vstd::prelude::*;

verus! {

/// Whether a name begins with the term, in any case.
pub open spec fn begins_in_any_case(name: Option<Seq<char>>, term: Seq<char>) -> bool {
    name matches Some(n) && reads_at(n, term, 0, true)
}

/// Whether a user is meant by a term in small letters: one of their names begins with it, or
/// their key does where the term has more than four characters.
pub open spec fn is_meant(user: UserView, term: Seq<char>) -> bool {
    ||| begins_in_any_case(user.meta.name, term)
    ||| begins_in_any_case(user.meta.display_name, term)
    ||| byte_len(term) > 4 && reads_at(user.key.text(), term, 0, false)
}

proof fn lemma_meant(user: UserView, term: Seq<char>)
    ensures
        user_matches(user, term) == is_meant(user, term),
{
    match user.meta.name {
        Some(n) => {
            lemma_reads_at(n, term, 0, true);
        },
        None => {},
    }
    match user.meta.display_name {
        Some(n) => {
            lemma_reads_at(n, term, 0, true);
        },
        None => {},
    }
    lemma_reads_at(user.key.text(), term, 0, false);
}

proof fn lemma_matching(users: UsersView, term: Seq<char>)
    ensures
        forall|k: int|
            0 <= k < matching_users(users, term).len() ==> is_one(
                users,
                term,
                #[trigger] matching_users(users, term)[k],
            ),
        forall|i: int|
            0 <= i < users.len() && is_meant(#[trigger] users[i], term) ==> matching_users(
                users,
                term,
            ).contains((users[i].key, users[i].time)),
    decreases users.len(),
{
    if users.len() > 0 {
        let rest = users.drop_last();
        lemma_matching(rest, term);
        lemma_meant(users.last(), term);
        let before = matching_users(rest, term);
        let r = matching_users(users, term);
        assert forall|k: int| 0 <= k < r.len() implies is_one(users, term, #[trigger] r[k]) by {
            if k < before.len() {
                assert(r[k] == before[k]);
                let i = choose|i: int|
                    0 <= i < rest.len() && (#[trigger] rest[i]).key == before[k].0 && rest[i].time
                        == before[k].1 && is_meant(rest[i], term);
                assert(users[i] == rest[i]);
            } else {
                assert(users[users.len() - 1] == users.last());
            }
        }
        assert forall|i: int|
            0 <= i < users.len() && is_meant(#[trigger] users[i], term) implies r.contains(
            (users[i].key, users[i].time),
        ) by {
            if i < rest.len() {
                assert(rest[i] == users[i]);
                let k = choose|k: int|
                    0 <= k < before.len() && before[k] == (rest[i].key, rest[i].time);
                assert(r[k] == before[k]);
            } else {
                assert(r.last() == (users[i].key, users[i].time));
            }
        }
    }
}

/// Whether a key with a time is that of a user who is meant.
pub open spec fn is_one(users: UsersView, term: Seq<char>, found: (PublicKey, u64)) -> bool {
    exists|i: int|
        0 <= i < users.len() && (#[trigger] users[i]).key == found.0 && users[i].time == found.1
            && is_meant(users[i], term)
}

/// The users that are found are those who are meant, and the one whose metadata came last is the
/// first of them.
pub proof fn users_are_found_by_the_beginning_of_a_name(users: UsersView, text: Seq<char>)
    requires
        trimmed(text).len() > 0,
        public_key_of(lower(trimmed(text))) is None,
    ensures
        ({
            let term = lower(trimmed(text));
            let found = found_users(users, text);
            &&& forall|i: int|
                0 <= i < users.len() && is_meant(#[trigger] users[i], term) ==> found.contains(
                    users[i].key,
                )
            &&& forall|k: int|
                0 <= k < found.len() ==> exists|i: int|
                    #![trigger users[i]]
                    0 <= i < users.len() && users[i].key == #[trigger] found[k] && is_meant(
                        users[i],
                        term,
                    )
            &&& keys_unique(users) ==> forall|i: int, j: int|
                0 <= i < users.len() && 0 <= j < users.len() && is_meant(#[trigger] users[i], term)
                    && (#[trigger] users[j]).key == found[0] ==> users[i].time <= users[j].time
        }),
{
    broadcast use vstd::seq_lib::group_to_multiset_ensures;

    let term = lower(trimmed(text));
    let all = matching_users(users, term);
    lemma_matching(users, term);
    sorting_orders_and_keeps::<Found>(all);
    let s = sorted::<Found>(all);
    let found = found_users(users, text);
    assert(found == keys_of(s));
    assert forall|k: int| 0 <= k < s.len() implies is_one(users, term, #[trigger] s[k]) by {
        assert(s.contains(s[k]));
        assert(all.to_multiset().contains(s[k]));
        assert(all.contains(s[k]));
        let l = choose|l: int| 0 <= l < all.len() && all[l] == s[k];
        assert(is_one(users, term, all[l]));
    }
    assert forall|i: int|
        0 <= i < users.len() && is_meant(#[trigger] users[i], term) implies s.contains(
        (users[i].key, users[i].time),
    ) && found.contains(users[i].key) by {
        let x = (users[i].key, users[i].time);
        assert(all.contains(x));
        assert(all.to_multiset().contains(x));
        assert(s.to_multiset().contains(x));
        assert(s.contains(x));
        let k = choose|k: int| 0 <= k < s.len() && s[k] == x;
        assert(found[k] == users[i].key);
    }
    assert forall|k: int| 0 <= k < found.len() implies exists|i: int|
        #![trigger users[i]]
        0 <= i < users.len() && users[i].key == #[trigger] found[k] && is_meant(
            users[i],
            term,
        ) by {
        assert(is_one(users, term, s[k]));
        let i = choose|i: int|
            0 <= i < users.len() && (#[trigger] users[i]).key == s[k].0 && users[i].time == s[k].1
                && is_meant(users[i], term);
        assert(users[i].key == found[k]);
    }
    if keys_unique(users) {
        assert forall|i: int, j: int|
            0 <= i < users.len() && 0 <= j < users.len() && is_meant(#[trigger] users[i], term) && (
            #[trigger] users[j]).key == found[0] implies users[i].time <= users[j].time by {
            let x = (users[i].key, users[i].time);
            assert(s.contains(x));
            let k = choose|k: int| 0 <= k < s.len() && s[k] == x;
            assert(<Found as crate::lists::Ordered>::leq(s[0], s[k]));
            assert(is_one(users, term, s[0]));
            let f = choose|f: int|
                0 <= f < users.len() && (#[trigger] users[f]).key == s[0].0 && users[f].time
                    == s[0].1 && is_meant(users[f], term);
            assert(users[f].key == users[j].key);
            assert(f == j) by {
                if f < j {
                    assert(users[f].key != users[j].key);
                } else if j < f {
                    assert(users[j].key != users[f].key);
                }
            }
        }
    }
}

/// A key finds its user if they are known, and blank text finds nobody.
pub proof fn a_key_finds_its_user(users: UsersView, text: Seq<char>, key: PublicKey)
    ensures
        trimmed(text).len() == 0 ==> found_users(users, text).len() == 0,
        trimmed(text).len() > 0 && public_key_of(lower(trimmed(text))) == Some(key)
            ==> found_users(users, text) == if exists|i: int|
            0 <= i < users.len() && (#[trigger] users[i]).key == key {
            seq![key]
        } else {
            Seq::<PublicKey>::empty()
        },
{
    lemma_user_found(users, key);
    if exists|i: int| 0 <= i < users.len() && (#[trigger] users[i]).key == key {
        let i = choose|i: int| 0 <= i < users.len() && (#[trigger] users[i]).key == key;
        if user_at(users, key) == users.len() {
            assert(users[i].key != key);
        }
    }
}

/// A user is called by their name, and by the first six characters of their key without one.
pub proof fn a_user_is_called_by_their_name(users: UsersView, i: int)
    requires
        keys_unique(users),
        0 <= i < users.len(),
    ensures
        username(users, users[i].key) == match users[i].meta.name {
            Some(name) => name,
            None => users[i].key.text().take(6),
        },
        displayname(users, users[i].key) == match (users[i].meta.display_name, users[i].meta.name) {
            (Some(name), _) => name + seq!['@'] + users[i].key.text().take(6),
            (None, Some(name)) => name + seq!['@'] + users[i].key.text().take(6),
            (None, None) => users[i].key.text(),
        },
{
    let key = users[i].key;
    lemma_user_found(users, key);
    let at = user_at(users, key);
    if at < i {
        assert(users[at].key != users[i].key);
    }
    crate::nostr::lemma_id_text(key.hi, key.lo);
    reveal_strlit("@");
    assert("@"@ =~= seq!['@']);
}

/// Metadata of one user leaves all others as they are.
pub proof fn metadata_concerns_one_user(
    users: UsersView,
    key: PublicKey,
    meta: MetaView,
    time: u64,
    i: int,
)
    requires
        0 <= i < users.len(),
        users[i].key != key,
    ensures
        with_metadata(users, key, meta, time)[i] == users[i],
        with_user(users, key)[i] == users[i],
        with_user(users, users[i].key) == users,
{
    lemma_user_found(users, key);
    lemma_user_found(users, users[i].key);
}

} // verus!
