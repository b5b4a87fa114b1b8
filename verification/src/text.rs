//! Text as sequences of characters: the string operations that the task logic
//! rests on, each tied to its mathematical meaning.

use crate::lists::{group_views, views, Ordered};
use vstd::prelude::*;

verus! {

/// `String::push` appends one character.
pub assume_specification[ String::push ](s: &mut String, c: char)
    ensures
        final(s)@ == old(s)@.push(c),
;

// ---------------------------------------------------------------------------
// Characters

/// The lower-case form of an ASCII letter; any other character stays as it is.
pub open spec fn lower_char(c: char) -> char {
    if 'A' <= c && c <= 'Z' {
        ((c as u32) + 32) as char
    } else {
        c
    }
}

pub fn to_lower_char(c: char) -> (r: char)
    ensures
        r == lower_char(c),
{
    if 'A' <= c && c <= 'Z' {
        let b: u8 = (c as u32) as u8;
        (b + 32) as char
    } else {
        c
    }
}

/// ASCII whitespace: tab, line feed, form feed, carriage return and space.
pub open spec fn is_ascii_space(c: char) -> bool {
    c == '\t' || c == '\n' || c == '\x0c' || c == '\r' || c == ' '
}

/// The `White_Space` property of Unicode.
pub open spec fn is_space(c: char) -> bool {
    let u: int = c as int;
    ||| 0x09 <= u <= 0x0d
    ||| u == 0x20
    ||| u == 0x85
    ||| u == 0xa0
    ||| u == 0x1680
    ||| 0x2000 <= u <= 0x200a
    ||| u == 0x2028
    ||| u == 0x2029
    ||| u == 0x202f
    ||| u == 0x205f
    ||| u == 0x3000
}

/// Whether `c` separates words: at Unicode or only at ASCII whitespace.
pub open spec fn separates(unicode: bool, c: char) -> bool {
    if unicode {
        is_space(c)
    } else {
        is_ascii_space(c)
    }
}

pub fn char_separates(unicode: bool, c: char) -> (r: bool)
    ensures
        r == separates(unicode, c),
{
    if unicode {
        let u: u32 = c as u32;
        (0x09 <= u && u <= 0x0d) || u == 0x20 || u == 0x85 || u == 0xa0 || u == 0x1680 || (0x2000
            <= u && u <= 0x200a) || u == 0x2028 || u == 0x2029 || u == 0x202f || u == 0x205f || u
            == 0x3000
    } else {
        c == '\t' || c == '\n' || c == '\x0c' || c == '\r' || c == ' '
    }
}

// ---------------------------------------------------------------------------
// Strings and their characters

pub fn chars_of(s: &str) -> (r: Vec<char>)
    ensures
        r@ == s@,
{
    let mut r: Vec<char> = Vec::new();
    for c in it: s.chars()
        invariant
            it.seq() == s@,
            r@ == s@.take(it.index() as int),
    {
        r.push(c);
        assert(s@.take(it.index() as int).push(c) =~= s@.take(it.index() + 1));
    }
    assert(s@.take(s@.len() as int) =~= s@);
    r
}

/// The characters of `s` from `from` on, up to but without `to`.
pub fn substring(s: &Vec<char>, from: usize, to: usize) -> (r: String)
    requires
        from <= to <= s.len(),
    ensures
        r@ == s@.subrange(from as int, to as int),
{
    let mut r: String = String::new();
    let mut i: usize = from;
    while i < to
        invariant
            from <= i <= to <= s.len(),
            r@ == s@.subrange(from as int, i as int),
        decreases to - i,
    {
        r.push(s[i]);
        assert(s@.subrange(from as int, i as int).push(s@[i as int]) =~= s@.subrange(
            from as int,
            i + 1,
        ));
        i += 1;
    }
    r
}

pub fn same_text(a: &str, b: &str) -> (r: bool)
    ensures
        r == (a@ == b@),
{
    let x: Vec<char> = chars_of(a);
    let y: Vec<char> = chars_of(b);
    if x.len() != y.len() {
        return false;
    }
    let mut i: usize = 0;
    while i < x.len()
        invariant
            0 <= i <= x.len(),
            x.len() == y.len(),
            x@ == a@,
            y@ == b@,
            forall|j: int| 0 <= j < i ==> x@[j] == y@[j],
        decreases x.len() - i,
    {
        if x[i] != y[i] {
            return false;
        }
        i += 1;
    }
    assert(a@ =~= b@);
    true
}

// ---------------------------------------------------------------------------
// Case

/// `s` with every ASCII letter in lower case.
pub open spec fn lower(s: Seq<char>) -> Seq<char> {
    Seq::new(s.len(), |i: int| lower_char(s[i]))
}

pub fn to_lower(s: &str) -> (r: String)
    ensures
        r@ == lower(s@),
{
    let v: Vec<char> = chars_of(s);
    let mut r: String = String::new();
    let mut i: usize = 0;
    while i < v.len()
        invariant
            0 <= i <= v.len(),
            v@ == s@,
            r@ == lower(s@).take(i as int),
        decreases v.len() - i,
    {
        r.push(to_lower_char(v[i]));
        assert(lower(s@).take(i as int).push(lower(s@)[i as int]) =~= lower(s@).take(i + 1));
        i += 1;
    }
    assert(lower(s@).take(s@.len() as int) =~= lower(s@));
    r
}

/// Equality up to the case of ASCII letters.
pub fn same_ignoring_case(a: &str, b: &str) -> (r: bool)
    ensures
        r == (lower(a@) == lower(b@)),
{
    let x: String = to_lower(a);
    let y: String = to_lower(b);
    same_text(x.as_str(), y.as_str())
}

// ---------------------------------------------------------------------------
// Searching

/// Whether `part` stands in `s` at position `at`.
pub open spec fn stands_at(s: Seq<char>, part: Seq<char>, at: int) -> bool {
    0 <= at && at + part.len() <= s.len() && s.subrange(at, at + part.len()) == part
}

pub open spec fn begins_with(s: Seq<char>, part: Seq<char>) -> bool {
    stands_at(s, part, 0)
}

pub open spec fn has_part(s: Seq<char>, part: Seq<char>) -> bool {
    exists|at: int| stands_at(s, part, at)
}

pub fn part_at(s: &Vec<char>, part: &Vec<char>, at: usize) -> (r: bool)
    ensures
        r == stands_at(s@, part@, at as int),
{
    if at > s.len() || part.len() > s.len() - at {
        return false;
    }
    let mut i: usize = 0;
    while i < part.len()
        invariant
            0 <= i <= part.len(),
            at + part.len() <= s.len(),
            forall|j: int| 0 <= j < i ==> s@[at + j] == #[trigger] part@[j],
        decreases part.len() - i,
    {
        if s[at + i] != part[i] {
            proof {
                let sub = s@.subrange(at as int, at + part@.len());
                assert(sub[i as int] == s@[at + i]);
            }
            return false;
        }
        i += 1;
    }
    assert(s@.subrange(at as int, at + part@.len()) =~= part@);
    true
}

pub fn starts_with(s: &str, part: &str) -> (r: bool)
    ensures
        r == begins_with(s@, part@),
{
    let v: Vec<char> = chars_of(s);
    let p: Vec<char> = chars_of(part);
    part_at(&v, &p, 0)
}

pub fn starts_with_char(s: &str, c: char) -> (r: bool)
    ensures
        r == (s@.len() > 0 && s@[0] == c),
{
    let v: Vec<char> = chars_of(s);
    v.len() > 0 && v[0] == c
}

/// The first position at which `part` stands in `s`.
pub fn find_part(s: &str, part: &str) -> (r: Option<usize>)
    ensures
        match r {
            Some(at) => stands_at(s@, part@, at as int) && forall|k: int|
                0 <= k < at ==> !stands_at(s@, part@, k),
            None => !has_part(s@, part@),
        },
{
    let v: Vec<char> = chars_of(s);
    let p: Vec<char> = chars_of(part);
    if p.len() > v.len() {
        return None;
    }
    let last: usize = v.len() - p.len();
    let mut at: usize = 0;
    loop
        invariant
            v@ == s@,
            p@ == part@,
            p.len() <= v.len(),
            last == v.len() - p.len(),
            at <= last,
            forall|k: int| 0 <= k < at ==> !stands_at(s@, part@, k),
        decreases last - at,
    {
        if part_at(&v, &p, at) {
            return Some(at);
        }
        if at == last {
            return None;
        }
        at += 1;
    }
}

pub fn contains(s: &str, part: &str) -> (r: bool)
    ensures
        r == has_part(s@, part@),
{
    match find_part(s, part) {
        Some(_) => true,
        None => false,
    }
}

pub fn contains_char(s: &str, c: char) -> (r: bool)
    ensures
        r == s@.contains(c),
{
    let v: Vec<char> = chars_of(s);
    let mut i: usize = 0;
    while i < v.len()
        invariant
            0 <= i <= v.len(),
            v@ == s@,
            forall|j: int| 0 <= j < i ==> v@[j] != c,
        decreases v.len() - i,
    {
        if v[i] == c {
            assert(s@[i as int] == c);
            return true;
        }
        i += 1;
    }
    false
}

// ---------------------------------------------------------------------------
// Trimming

/// `s` without the separators at its start.
pub open spec fn trimmed_start(s: Seq<char>) -> Seq<char>
    decreases s.len(),
{
    if s.len() > 0 && is_space(s[0]) {
        trimmed_start(s.drop_first())
    } else {
        s
    }
}

/// `s` without the separators at its end.
pub open spec fn trimmed_end(s: Seq<char>) -> Seq<char>
    decreases s.len(),
{
    if s.len() > 0 && is_space(s.last()) {
        trimmed_end(s.drop_last())
    } else {
        s
    }
}

/// `s` without whitespace at either end.
pub open spec fn trimmed(s: Seq<char>) -> Seq<char> {
    trimmed_end(trimmed_start(s))
}

/// `s` without the run of `c` that it starts with.
pub open spec fn without_leading(s: Seq<char>, c: char) -> Seq<char>
    decreases s.len(),
{
    if s.len() > 0 && s[0] == c {
        without_leading(s.drop_first(), c)
    } else {
        s
    }
}

pub fn trim(s: &str) -> (r: String)
    ensures
        r@ == trimmed(s@),
{
    let v: Vec<char> = chars_of(s);
    let mut from: usize = 0;
    assert(v@.skip(0) =~= v@);
    while from < v.len() && char_separates(true, v[from])
        invariant
            0 <= from <= v.len(),
            trimmed_start(v@) == trimmed_start(v@.skip(from as int)),
        decreases v.len() - from,
    {
        assert(v@.skip(from as int).drop_first() =~= v@.skip(from + 1));
        from += 1;
    }
    let ghost rest = v@.skip(from as int);
    assert(trimmed_start(v@) == rest);
    let mut to: usize = v.len();
    assert(v@.subrange(from as int, v@.len() as int) =~= rest);
    while to > from && char_separates(true, v[to - 1])
        invariant
            0 <= from <= to <= v.len(),
            trimmed_end(rest) == trimmed_end(v@.subrange(from as int, to as int)),
        decreases to,
    {
        assert(v@.subrange(from as int, to as int).drop_last() =~= v@.subrange(
            from as int,
            to - 1,
        ));
        to -= 1;
    }
    substring(&v, from, to)
}

pub fn trim_leading(s: &str, c: char) -> (r: String)
    ensures
        r@ == without_leading(s@, c),
{
    let v: Vec<char> = chars_of(s);
    let mut from: usize = 0;
    assert(v@.skip(0) =~= v@);
    while from < v.len() && v[from] == c
        invariant
            0 <= from <= v.len(),
            without_leading(v@, c) == without_leading(v@.skip(from as int), c),
        decreases v.len() - from,
    {
        assert(v@.skip(from as int).drop_first() =~= v@.skip(from + 1));
        from += 1;
    }
    assert(v@.subrange(from as int, v@.len() as int) =~= v@.skip(from as int));
    substring(&v, from, v.len())
}

/// What is left of `s` once the run of `c` at its start is gone is a suffix of it.
pub proof fn lemma_without_leading(s: Seq<char>, c: char)
    ensures
        without_leading(s, c).len() <= s.len(),
        without_leading(s, c) == s.skip(s.len() - without_leading(s, c).len()),
        forall|i: int| 0 <= i < s.len() - without_leading(s, c).len() ==> s[i] == c,
    decreases s.len(),
{
    if s.len() > 0 && s[0] == c {
        let t = s.drop_first();
        lemma_without_leading(t, c);
        let k: int = t.len() - without_leading(t, c).len();
        assert(t.skip(k) =~= s.skip(k + 1));
        assert forall|i: int| 0 <= i < k + 1 implies s[i] == c by {
            if i > 0 {
                assert(t[i - 1] == c);
            }
        }
    } else {
        assert(s.skip(0) =~= s);
    }
}

// ---------------------------------------------------------------------------
// Parts and lines

/// Where the part stands first, from the given position on.
pub open spec fn first_part(s: Seq<char>, part: Seq<char>, from: int) -> Option<int>
    decreases s.len() - from + 1,
{
    if from < 0 || from > s.len() {
        None
    } else if stands_at(s, part, from) {
        Some(from)
    } else {
        first_part(s, part, from + 1)
    }
}

/// What stands before and after the part where it stands first.
pub open spec fn parted(s: Seq<char>, part: Seq<char>) -> Option<(Seq<char>, Seq<char>)> {
    match first_part(s, part, 0) {
        Some(at) => Some((s.take(at), s.skip(at + part.len()))),
        None => None,
    }
}

proof fn lemma_first_part(s: Seq<char>, part: Seq<char>, from: int)
    ensures
        first_part(s, part, from) matches Some(at) ==> stands_at(s, part, at),
    decreases s.len() - from + 1,
{
    if 0 <= from <= s.len() && !stands_at(s, part, from) {
        lemma_first_part(s, part, from + 1);
    }
}

/// What follows a part is shorter than the whole.
pub proof fn lemma_parted_is_shorter(s: Seq<char>, part: Seq<char>)
    requires
        part.len() > 0,
    ensures
        parted(s, part) matches Some((_, rest)) ==> rest.len() < s.len(),
{
    lemma_first_part(s, part, 0);
}

pub fn split_once(s: &str, part: &str) -> (r: Option<(String, String)>)
    ensures
        match r {
            Some((left, right)) => parted(s@, part@) == Some((left@, right@)),
            None => parted(s@, part@) is None,
        },
{
    let v: Vec<char> = chars_of(s);
    let p: Vec<char> = chars_of(part);
    let mut at: usize = 0;
    while at < v.len() && !part_at(&v, &p, at)
        invariant
            0 <= at <= v.len(),
            v@ == s@,
            p@ == part@,
            first_part(s@, part@, 0) == first_part(s@, part@, at as int),
        decreases v.len() - at,
    {
        at += 1;
    }
    if part_at(&v, &p, at) {
        let left: String = substring(&v, 0, at);
        let right: String = substring(&v, at + p.len(), v.len());
        assert(left@ =~= s@.take(at as int));
        assert(right@ =~= s@.skip(at + part@.len()));
        Some((left, right))
    } else {
        assert(first_part(s@, part@, at + 1) is None);
        None
    }
}

/// The lines finished within the first `n` characters, and the line that is being read there.
pub open spec fn lines_read(s: Seq<char>, n: nat) -> (Seq<Seq<char>>, Seq<char>)
    decreases n,
{
    if n == 0 {
        (Seq::empty(), Seq::empty())
    } else {
        let (done, line) = lines_read(s, (n - 1) as nat);
        if s[n - 1] == '\n' {
            (done.push(line), Seq::empty())
        } else {
            (done, line.push(s[n - 1]))
        }
    }
}

/// What stands between line breaks, in order.
pub open spec fn lines_in(s: Seq<char>) -> Seq<Seq<char>> {
    let (done, line) = lines_read(s, s.len());
    done.push(line)
}

pub fn split_lines(s: &str) -> (r: Vec<String>)
    ensures
        views(r@) == lines_in(s@),
{
    broadcast use group_views;

    let v: Vec<char> = chars_of(s);
    let mut done: Vec<String> = Vec::new();
    let mut line: String = String::new();
    let mut i: usize = 0;
    assert(views(done@) =~= Seq::<Seq<char>>::empty());
    while i < v.len()
        invariant
            0 <= i <= v.len(),
            v@ == s@,
            views(done@) == lines_read(s@, i as nat).0,
            line@ == lines_read(s@, i as nat).1,
        decreases v.len() - i,
    {
        let c: char = v[i];
        if c == '\n' {
            done.push(line);
            line = String::new();
        } else {
            line.push(c);
        }
        i += 1;
    }
    done.push(line);
    done
}

// ---------------------------------------------------------------------------
// Words

/// The words finished within the first `n` characters, and the word that is being read there.
pub open spec fn words_read(s: Seq<char>, unicode: bool, n: nat) -> (Seq<Seq<char>>, Seq<char>)
    decreases n,
{
    if n == 0 {
        (Seq::empty(), Seq::empty())
    } else {
        let (done, word) = words_read(s, unicode, (n - 1) as nat);
        let c = s[n - 1];
        if !separates(unicode, c) {
            (done, word.push(c))
        } else if word.len() > 0 {
            (done.push(word), Seq::empty())
        } else {
            (done, word)
        }
    }
}

/// The maximal runs of characters that do not separate words, in order.
pub open spec fn words(s: Seq<char>, unicode: bool) -> Seq<Seq<char>> {
    let (done, word) = words_read(s, unicode, s.len());
    if word.len() > 0 {
        done.push(word)
    } else {
        done
    }
}

pub fn split_words(s: &str, unicode: bool) -> (r: Vec<String>)
    ensures
        views(r@) == words(s@, unicode),
{
    broadcast use group_views;

    let v: Vec<char> = chars_of(s);
    let mut done: Vec<String> = Vec::new();
    let mut word: String = String::new();
    let mut i: usize = 0;
    assert(views(done@) =~= Seq::<Seq<char>>::empty());
    while i < v.len()
        invariant
            0 <= i <= v.len(),
            v@ == s@,
            views(done@) == words_read(s@, unicode, i as nat).0,
            word@ == words_read(s@, unicode, i as nat).1,
        decreases v.len() - i,
    {
        let c: char = v[i];
        if !char_separates(unicode, c) {
            word.push(c);
        } else if !word.as_str().is_empty() {
            done.push(word);
            word = String::new();
        }
        i += 1;
    }
    if !word.as_str().is_empty() {
        done.push(word);
    }
    done
}

/// `parts` in order, with `sep` between each two.
pub open spec fn joined(parts: Seq<Seq<char>>, sep: Seq<char>) -> Seq<char>
    decreases parts.len(),
{
    if parts.len() == 0 {
        Seq::empty()
    } else if parts.len() == 1 {
        parts[0]
    } else {
        joined(parts.drop_last(), sep) + sep + parts.last()
    }
}

pub fn join(parts: &Vec<String>, sep: &str) -> (r: String)
    ensures
        r@ == joined(views(parts@), sep@),
{
    let mut r: String = String::new();
    let mut i: usize = 0;
    assert(views(parts@).take(0) =~= Seq::<Seq<char>>::empty());
    while i < parts.len()
        invariant
            0 <= i <= parts.len(),
            r@ == joined(views(parts@).take(i as int), sep@),
        decreases parts.len() - i,
    {
        let ghost before = views(parts@).take(i as int);
        let ghost after = views(parts@).take(i + 1);
        assert(after.drop_last() =~= before);
        if i > 0 {
            r.append(sep);
        }
        r.append(parts[i].as_str());
        assert(r@ =~= joined(after, sep@));
        i += 1;
    }
    assert(views(parts@).take(parts@.len() as int) =~= views(parts@));
    r
}

// ---------------------------------------------------------------------------
// Numbers

pub open spec fn is_digit(c: char) -> bool {
    '0' <= c && c <= '9'
}

pub open spec fn digit_value(c: char) -> int {
    (c as int) - ('0' as int)
}

pub open spec fn all_digits(s: Seq<char>) -> bool {
    forall|i: int| 0 <= i < s.len() ==> is_digit(#[trigger] s[i])
}

/// The number that a run of decimal digits denotes.
pub open spec fn digits_value(s: Seq<char>) -> int
    decreases s.len(),
{
    if s.len() == 0 {
        0
    } else {
        10 * digits_value(s.drop_last()) + digit_value(s.last())
    }
}

/// The number that an optional plus sign and decimal digits denote, if it is at most `max`.
pub open spec fn unsigned_value(s: Seq<char>, max: int) -> Option<int> {
    let d = if s.len() > 0 && s[0] == '+' {
        s.skip(1)
    } else {
        s
    };
    if d.len() > 0 && all_digits(d) && digits_value(d) <= max {
        Some(digits_value(d))
    } else {
        None
    }
}

proof fn lemma_digits_monotone(s: Seq<char>, i: int)
    requires
        all_digits(s),
        0 <= i <= s.len(),
    ensures
        0 <= digits_value(s.take(i)) <= digits_value(s),
    decreases s.len(),
{
    if i == s.len() {
        assert(s.take(i) =~= s);
        if s.len() > 0 {
            assert(all_digits(s.drop_last()));
            lemma_digits_monotone(s.drop_last(), 0);
            assert(s.drop_last().take(0) =~= Seq::<char>::empty());
        }
    } else {
        let t = s.drop_last();
        assert(all_digits(t));
        lemma_digits_monotone(t, i);
        assert(t.take(i) =~= s.take(i));
    }
}

pub proof fn lemma_unsigned_value(s: Seq<char>, max: int)
    ensures
        unsigned_value(s, max) matches Some(n) ==> 0 <= n <= max,
{
    let d = if s.len() > 0 && s[0] == '+' {
        s.skip(1)
    } else {
        s
    };
    if all_digits(d) {
        lemma_digits_monotone(d, 0);
    }
}

/// The value of the digits of `v` from `from` on, if there are any, all are digits and it is at
/// most `max`.
fn parse_digits(v: &Vec<char>, from: usize, max: u64) -> (r: Option<u64>)
    requires
        from <= v.len(),
    ensures
        ({
            let d = v@.skip(from as int);
            match r {
                Some(n) => d.len() > 0 && all_digits(d) && digits_value(d) == n && n <= max,
                None => !(d.len() > 0 && all_digits(d) && digits_value(d) <= max),
            }
        }),
{
    let ghost d = v@.skip(from as int);
    if from == v.len() {
        return None;
    }
    let mut n: u64 = 0;
    let mut i: usize = from;
    assert(d.take(0) =~= Seq::<char>::empty());
    while i < v.len()
        invariant
            from <= i <= v.len(),
            d == v@.skip(from as int),
            forall|k: int| 0 <= k < i - from ==> is_digit(#[trigger] d[k]),
            digits_value(d.take(i - from)) == n,
            n <= max,
        decreases v.len() - i,
    {
        let c: char = v[i];
        assert(d[i - from] == c);
        if !('0' <= c && c <= '9') {
            return None;
        }
        let x: u64 = (c as u32 - '0' as u32) as u64;
        assert(d.take(i + 1 - from).drop_last() =~= d.take(i - from));
        assert(digits_value(d.take(i + 1 - from)) == 10 * n + x);
        if n > (u64::MAX - x) / 10 || 10 * n + x > max {
            proof {
                if all_digits(d) {
                    lemma_digits_monotone(d, i + 1 - from);
                }
            }
            return None;
        }
        n = 10 * n + x;
        i += 1;
    }
    assert(d.take(d.len() as int) =~= d);
    Some(n)
}

pub fn parse_unsigned(s: &str, max: u64) -> (r: Option<u64>)
    ensures
        match r {
            Some(n) => unsigned_value(s@, max as int) == Some(n as int),
            None => unsigned_value(s@, max as int) is None,
        },
{
    let v: Vec<char> = chars_of(s);
    let from: usize = if v.len() > 0 && v[0] == '+' {
        1
    } else {
        0
    };
    assert(v@.skip(0) =~= v@);
    parse_digits(&v, from, max)
}

/// The number that an optional sign and decimal digits denote, if 64 bits hold it.
pub open spec fn signed_value(s: Seq<char>) -> Option<int> {
    if s.len() > 0 && s[0] == '-' {
        let d = s.skip(1);
        if d.len() > 0 && all_digits(d) && digits_value(d) <= -(i64::MIN as int) {
            Some(-digits_value(d))
        } else {
            None
        }
    } else {
        unsigned_value(s, i64::MAX as int)
    }
}

pub fn parse_signed(s: &str) -> (r: Option<i64>)
    ensures
        match r {
            Some(n) => signed_value(s@) == Some(n as int),
            None => signed_value(s@) is None,
        },
{
    let v: Vec<char> = chars_of(s);
    if v.len() > 0 && v[0] == '-' {
        match parse_digits(&v, 1, 0x8000_0000_0000_0000) {
            Some(n) => {
                if n == 0x8000_0000_0000_0000 {
                    Some(i64::MIN)
                } else {
                    Some(-(n as i64))
                }
            },
            None => None,
        }
    } else {
        match parse_unsigned(s, i64::MAX as u64) {
            Some(n) => Some(n as i64),
            None => None,
        }
    }
}

/// The decimal digits of `n`.
pub open spec fn decimal(n: nat) -> Seq<char>
    decreases n,
{
    if n < 10 {
        seq![(('0' as u32) + n) as char]
    } else {
        decimal(n / 10).push((('0' as u32) + n % 10) as char)
    }
}

pub fn to_decimal(n: u64) -> (r: String)
    ensures
        r@ == decimal(n as nat),
    decreases n,
{
    if n < 10 {
        let mut r: String = String::new();
        r.push((('0' as u8) + (n as u8)) as char);
        assert(r@ =~= decimal(n as nat));
        r
    } else {
        let mut r: String = to_decimal(n / 10);
        r.push((('0' as u8) + ((n % 10) as u8)) as char);
        r
    }
}

/// `s` with copies of `c` before it up to a length of `width`.
pub open spec fn padded(s: Seq<char>, c: char, width: nat) -> Seq<char> {
    if s.len() < width {
        Seq::new((width - s.len()) as nat, |i: int| c) + s
    } else {
        s
    }
}

pub fn pad(s: &str, c: char, width: usize) -> (r: String)
    ensures
        r@ == padded(s@, c, width as nat),
{
    let len: usize = s.unicode_len();
    let mut r: String = String::new();
    let mut i: usize = len;
    while i < width
        invariant
            len == s@.len(),
            i >= len,
            i <= width || i == len,
            r@ == Seq::new((i - len) as nat, |k: int| c),
        decreases width - i,
    {
        r.push(c);
        i += 1;
        assert(r@ =~= Seq::new((i - len) as nat, |k: int| c));
    }
    r.append(s);
    assert(r@ =~= padded(s@, c, width as nat));
    r
}

/// `s` cut to at most `len` characters.
pub open spec fn cut(s: Seq<char>, len: int) -> Seq<char> {
    if s.len() <= len {
        s
    } else {
        s.take(len)
    }
}

pub fn truncate(s: &str, len: usize) -> (r: String)
    ensures
        r@ == cut(s@, len as int),
{
    let v: Vec<char> = chars_of(s);
    let to: usize = if v.len() <= len {
        v.len()
    } else {
        len
    };
    assert(v@.subrange(0, to as int) =~= cut(s@, len as int));
    substring(&v, 0, to)
}

// ---------------------------------------------------------------------------
// Bytes

/// How many bytes a character takes in UTF-8.
pub open spec fn char_bytes(c: char) -> nat {
    if (c as u32) < 0x80 {
        1
    } else if (c as u32) < 0x800 {
        2
    } else if (c as u32) < 0x10000 {
        3
    } else {
        4
    }
}

/// How many bytes a text takes in UTF-8.
pub open spec fn byte_len(s: Seq<char>) -> nat
    decreases s.len(),
{
    if s.len() == 0 {
        0
    } else {
        byte_len(s.drop_last()) + char_bytes(s.last())
    }
}

/// A text takes from one to four bytes for each character.
pub proof fn lemma_byte_len(s: Seq<char>)
    ensures
        s.len() <= byte_len(s) <= 4 * s.len(),
    decreases s.len(),
{
    if s.len() > 0 {
        lemma_byte_len(s.drop_last());
    }
}

/// The number of bytes of the first `to` characters, at most the greatest `usize`.
pub fn count_bytes(v: &Vec<char>, to: usize) -> (r: usize)
    requires
        to <= v.len(),
    ensures
        r == if byte_len(v@.take(to as int)) <= usize::MAX {
            byte_len(v@.take(to as int)) as int
        } else {
            usize::MAX as int
        },
{
    let mut r: usize = 0;
    let mut i: usize = 0;
    while i < to
        invariant
            0 <= i <= to <= v.len(),
            r == if byte_len(v@.take(i as int)) <= usize::MAX {
                byte_len(v@.take(i as int)) as int
            } else {
                usize::MAX as int
            },
        decreases to - i,
    {
        assert(v@.take(i + 1).drop_last() =~= v@.take(i as int));
        let u: u32 = v[i] as u32;
        let width: usize = if u < 0x80 {
            1
        } else if u < 0x800 {
            2
        } else if u < 0x10000 {
            3
        } else {
            4
        };
        r = r.saturating_add(width);
        i += 1;
    }
    r
}

/// Whether a text takes less than `n` bytes.
pub fn shorter_than(s: &str, n: usize) -> (r: bool)
    ensures
        r == (byte_len(s@) < n),
{
    let v: Vec<char> = chars_of(s);
    assert(v@.take(v@.len() as int) =~= v@);
    count_bytes(&v, v.len()) < n
}

// ---------------------------------------------------------------------------
// Replacing

/// `s` from `from` on with every occurrence of `part`, found from the left, replaced by `with`.
pub open spec fn replaced_from(s: Seq<char>, part: Seq<char>, with: Seq<char>, from: int) -> Seq<
    char,
>
    decreases s.len() - from,
{
    if from < 0 || from >= s.len() || part.len() == 0 {
        Seq::empty()
    } else if stands_at(s, part, from) {
        with + replaced_from(s, part, with, from + part.len())
    } else {
        seq![s[from]] + replaced_from(s, part, with, from + 1)
    }
}

pub fn replace(s: &str, part: &str, with: &str) -> (r: String)
    requires
        part@.len() > 0,
    ensures
        r@ == replaced_from(s@, part@, with@, 0),
{
    let v: Vec<char> = chars_of(s);
    let p: Vec<char> = chars_of(part);
    let mut r: String = String::new();
    let mut i: usize = 0;
    while i < v.len()
        invariant
            0 <= i <= v.len(),
            v@ == s@,
            p@ == part@,
            part@.len() > 0,
            replaced_from(s@, part@, with@, 0) == r@ + replaced_from(s@, part@, with@, i as int),
        decreases v.len() - i,
    {
        let ghost before = r@;
        if part_at(&v, &p, i) {
            r.append(with);
            assert(before + (with@ + replaced_from(s@, part@, with@, i + part@.len())) =~= r@
                + replaced_from(s@, part@, with@, i + part@.len()));
            i += p.len();
        } else {
            r.push(v[i]);
            assert(before + (seq![s@[i as int]] + replaced_from(s@, part@, with@, i + 1)) =~= r@
                + replaced_from(s@, part@, with@, i + 1));
            i += 1;
        }
    }
    assert(r@ + Seq::<char>::empty() =~= r@);
    r
}

// ---------------------------------------------------------------------------
// Order

/// The order of two texts by their characters, the shorter first where one begins the other.
pub open spec fn text_leq(a: Seq<char>, b: Seq<char>) -> bool
    decreases a.len(),
{
    if a.len() == 0 {
        true
    } else if b.len() == 0 {
        false
    } else if a[0] != b[0] {
        a[0] < b[0]
    } else {
        text_leq(a.drop_first(), b.drop_first())
    }
}

pub fn text_at_most(a: &str, b: &str) -> (r: bool)
    ensures
        r == text_leq(a@, b@),
{
    let x: Vec<char> = chars_of(a);
    let y: Vec<char> = chars_of(b);
    let mut i: usize = 0;
    assert(x@.skip(0) =~= x@);
    assert(y@.skip(0) =~= y@);
    while i < x.len() && i < y.len()
        invariant
            0 <= i <= x.len(),
            i <= y.len(),
            x@ == a@,
            y@ == b@,
            text_leq(a@, b@) == text_leq(x@.skip(i as int), y@.skip(i as int)),
        decreases x.len() - i,
    {
        if x[i] != y[i] {
            return x[i] < y[i];
        }
        assert(x@.skip(i as int).drop_first() =~= x@.skip(i + 1));
        assert(y@.skip(i as int).drop_first() =~= y@.skip(i + 1));
        i += 1;
    }
    i == x.len()
}

/// The order of two lists of texts, element by element.
pub open spec fn texts_leq(a: Seq<Seq<char>>, b: Seq<Seq<char>>) -> bool
    decreases a.len(),
{
    if a.len() == 0 {
        true
    } else if b.len() == 0 {
        false
    } else if a[0] != b[0] {
        text_leq(a[0], b[0])
    } else {
        texts_leq(a.drop_first(), b.drop_first())
    }
}

pub fn texts_at_most(a: &Vec<String>, b: &Vec<String>) -> (r: bool)
    ensures
        r == texts_leq(views(a@), views(b@)),
{
    let ghost x = views(a@);
    let ghost y = views(b@);
    let mut i: usize = 0;
    assert(x.skip(0) =~= x);
    assert(y.skip(0) =~= y);
    while i < a.len() && i < b.len()
        invariant
            0 <= i <= a.len(),
            i <= b.len(),
            x == views(a@),
            y == views(b@),
            texts_leq(x, y) == texts_leq(x.skip(i as int), y.skip(i as int)),
        decreases a.len() - i,
    {
        if !same_text(a[i].as_str(), b[i].as_str()) {
            return text_at_most(a[i].as_str(), b[i].as_str());
        }
        assert(x.skip(i as int).drop_first() =~= x.skip(i + 1));
        assert(y.skip(i as int).drop_first() =~= y.skip(i + 1));
        i += 1;
    }
    i == a.len()
}

pub fn same_texts(a: &Vec<String>, b: &Vec<String>) -> (r: bool)
    ensures
        r == (views(a@) == views(b@)),
{
    if a.len() != b.len() {
        assert(views(a@).len() != views(b@).len());
        return false;
    }
    let mut i: usize = 0;
    while i < a.len()
        invariant
            0 <= i <= a.len(),
            a.len() == b.len(),
            forall|k: int| 0 <= k < i ==> #[trigger] views(a@)[k] == views(b@)[k],
        decreases a.len() - i,
    {
        if !same_text(a[i].as_str(), b[i].as_str()) {
            assert(views(a@)[i as int] != views(b@)[i as int]);
            return false;
        }
        i += 1;
    }
    assert(views(a@) =~= views(b@));
    true
}

pub proof fn lemma_text_leq_total(a: Seq<char>, b: Seq<char>)
    ensures
        text_leq(a, b) || text_leq(b, a),
        text_leq(a, b) && text_leq(b, a) ==> a == b,
    decreases a.len(),
{
    if a.len() > 0 && b.len() > 0 && a[0] == b[0] {
        lemma_text_leq_total(a.drop_first(), b.drop_first());
        if text_leq(a, b) && text_leq(b, a) {
            assert(a =~= seq![a[0]] + a.drop_first());
            assert(b =~= seq![b[0]] + b.drop_first());
        }
    } else if a.len() == 0 && b.len() == 0 {
        assert(a =~= b);
    }
}

pub proof fn lemma_text_leq_transitive(a: Seq<char>, b: Seq<char>, c: Seq<char>)
    requires
        text_leq(a, b),
        text_leq(b, c),
    ensures
        text_leq(a, c),
    decreases a.len(),
{
    if a.len() > 0 && b.len() > 0 && c.len() > 0 && a[0] == b[0] && b[0] == c[0] {
        lemma_text_leq_transitive(a.drop_first(), b.drop_first(), c.drop_first());
    }
}

pub proof fn lemma_texts_leq_total(a: Seq<Seq<char>>, b: Seq<Seq<char>>)
    ensures
        texts_leq(a, b) || texts_leq(b, a),
        texts_leq(a, b) && texts_leq(b, a) ==> a == b,
    decreases a.len(),
{
    if a.len() > 0 && b.len() > 0 {
        if a[0] == b[0] {
            lemma_texts_leq_total(a.drop_first(), b.drop_first());
            if texts_leq(a, b) && texts_leq(b, a) {
                assert(a =~= seq![a[0]] + a.drop_first());
                assert(b =~= seq![b[0]] + b.drop_first());
            }
        } else {
            lemma_text_leq_total(a[0], b[0]);
        }
    } else if a.len() == 0 && b.len() == 0 {
        assert(a =~= b);
    }
}

pub proof fn lemma_texts_leq_transitive(a: Seq<Seq<char>>, b: Seq<Seq<char>>, c: Seq<Seq<char>>)
    requires
        texts_leq(a, b),
        texts_leq(b, c),
    ensures
        texts_leq(a, c),
    decreases a.len(),
{
    if a.len() > 0 && b.len() > 0 && c.len() > 0 {
        if a[0] == b[0] && b[0] == c[0] {
            lemma_texts_leq_transitive(a.drop_first(), b.drop_first(), c.drop_first());
        } else if a[0] != b[0] && b[0] != c[0] {
            lemma_text_leq_transitive(a[0], b[0], c[0]);
            if a[0] == c[0] {
                lemma_text_leq_total(a[0], b[0]);
            }
        }
    }
}

impl Ordered for String {
    open spec fn leq(a: Seq<char>, b: Seq<char>) -> bool {
        text_leq(a, b)
    }

    proof fn leq_total(a: Seq<char>, b: Seq<char>) {
        lemma_text_leq_total(a, b);
    }

    proof fn leq_transitive(a: Seq<char>, b: Seq<char>, c: Seq<char>) {
        lemma_text_leq_transitive(a, b, c);
    }

    fn at_most(&self, other: &Self) -> (r: bool) {
        text_at_most(self.as_str(), other.as_str())
    }
}

} // verus!
