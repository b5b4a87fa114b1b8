//! Small helpers for text, and those for times.

pub use crate::time::{
    format_as_datetime, format_datetime_relative, format_timestamp, format_timestamp_full,
    format_timestamp_local, format_timestamp_relative, format_timestamp_relative_to, parse_date,
    parse_date_with_ref, parse_hour, parse_hour_after, parse_tracking_stamp, ToTimestamp,
};

use crate::text::{byte_len, chars_of, count_bytes, lemma_without_leading, without_leading};
use vstd::prelude::*;
use vstd::string::StrSliceExecFns;

verus! {

/// The fewest bytes that the name of a new task has when it is typed as a command.
pub const CHARACTER_THRESHOLD: usize = 3;

/// The text, or an empty one.
pub fn to_string_or_default(arg: Option<&String>) -> (r: String)
    ensures
        match arg {
            Some(s) => r@ == s@,
            None => r@ == Seq::<char>::empty(),
        },
{
    match arg {
        Some(s) => s.clone(),
        None => String::new(),
    }
}

/// The text, unless it is empty.
pub open spec fn non_empty(s: Seq<char>) -> Option<Seq<char>> {
    if s.len() == 0 {
        None
    } else {
        Some(s)
    }
}

pub fn some_non_empty(str: &str) -> (r: Option<String>)
    ensures
        match r {
            Some(s) => non_empty(str@) == Some(s@),
            None => non_empty(str@) is None,
        },
{
    if str.is_empty() {
        None
    } else {
        Some(str.to_string())
    }
}

/// What is left of `str` without the run of `char` that it starts with, and the length of that
/// run in bytes.
pub fn trim_start_count(str: &str, char: char) -> (r: (&str, usize))
    ensures
        r.0@ == without_leading(str@, char),
        ({
            let run = byte_len(str@.take(str@.len() - without_leading(str@, char).len()));
            r.1 == if run <= usize::MAX {
                run as int
            } else {
                usize::MAX as int
            }
        }),
{
    let v: Vec<char> = chars_of(str);
    let mut from: usize = 0;
    assert(v@.skip(0) =~= v@);
    while from < v.len() && v[from] == char
        invariant
            0 <= from <= v.len(),
            without_leading(v@, char) == without_leading(v@.skip(from as int), char),
        decreases v.len() - from,
    {
        assert(v@.skip(from as int).drop_first() =~= v@.skip(from + 1));
        from += 1;
    }
    assert(v@.subrange(from as int, v@.len() as int) =~= v@.skip(from as int));
    let dots: usize = count_bytes(&v, from);
    (str.substring_char(from, v.len()), dots)
}

/// The run that `trim_start_count` takes off is made of that character, and what is left does
/// not start with it.
pub proof fn trimming_takes_the_whole_run(s: Seq<char>, c: char)
    ensures
        ({
            let rest = without_leading(s, c);
            &&& s == s.take(s.len() - rest.len()) + rest
            &&& forall|i: int| 0 <= i < s.len() - rest.len() ==> s[i] == c
            &&& rest.len() > 0 ==> rest[0] != c
        }),
    decreases s.len(),
{
    lemma_without_leading(s, c);
    let rest = without_leading(s, c);
    assert(s =~= s.take(s.len() - rest.len()) + rest);
    if s.len() > 0 && s[0] == c {
        trimming_takes_the_whole_run(s.drop_first(), c);
    }
}

} // verus!
