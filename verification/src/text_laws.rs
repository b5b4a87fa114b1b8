//! What holds of the parts of texts.

use crate::text::{
    cut, first_part, has_part, is_space, lines_in, lines_read, padded, parted, separates, stands_at,
    text_leq, texts_leq, trimmed, trimmed_end, trimmed_start, words, words_read,
};
use vstd::prelude::*;

verus! {

// ---------------------------------------------------------------------------
// Trimming

proof fn lemma_trimmed_start(s: Seq<char>) -> (from: int)
    ensures
        0 <= from <= s.len(),
        trimmed_start(s) == s.skip(from),
        forall|i: int| 0 <= i < from ==> is_space(#[trigger] s[i]),
        from < s.len() ==> !is_space(s[from]),
    decreases s.len(),
{
    if s.len() > 0 && is_space(s[0]) {
        let rest = s.drop_first();
        let k = lemma_trimmed_start(rest);
        assert(rest.skip(k) =~= s.skip(k + 1));
        assert forall|i: int| 0 <= i < k + 1 implies is_space(#[trigger] s[i]) by {
            if i > 0 {
                assert(rest[i - 1] == s[i]);
            }
        }
        if k < rest.len() {
            assert(rest[k] == s[k + 1]);
        }
        k + 1
    } else {
        assert(s.skip(0) =~= s);
        0
    }
}

proof fn lemma_trimmed_end(s: Seq<char>) -> (to: int)
    ensures
        0 <= to <= s.len(),
        trimmed_end(s) == s.take(to),
        forall|i: int| to <= i < s.len() ==> is_space(#[trigger] s[i]),
        to > 0 ==> !is_space(s[to - 1]),
    decreases s.len(),
{
    if s.len() > 0 && is_space(s.last()) {
        let rest = s.drop_last();
        let k = lemma_trimmed_end(rest);
        assert(rest.take(k) =~= s.take(k));
        assert forall|i: int| k <= i < s.len() implies is_space(#[trigger] s[i]) by {
            if i < rest.len() {
                assert(rest[i] == s[i]);
            }
        }
        if k > 0 {
            assert(rest[k - 1] == s[k - 1]);
        }
        k
    } else {
        assert(s.take(s.len() as int) =~= s);
        s.len() as int
    }
}

/// Whether the part of a text between two places is what is left of it without space at its ends.
pub open spec fn is_trimmed_to(s: Seq<char>, from: int, to: int) -> bool {
    &&& 0 <= from <= to <= s.len()
    &&& forall|i: int| 0 <= i < from ==> is_space(#[trigger] s[i])
    &&& forall|i: int| to <= i < s.len() ==> is_space(#[trigger] s[i])
    &&& from < to ==> !is_space(s[from]) && !is_space(s[to - 1])
}

/// Trimming takes all space from both ends of a text, and nothing else.
pub proof fn trimming_takes_space_from_both_ends(s: Seq<char>)
    ensures
        exists|from: int, to: int|
            #[trigger] is_trimmed_to(s, from, to) && trimmed(s) == s.subrange(from, to),
{
    let from = lemma_trimmed_start(s);
    let rest = s.skip(from);
    let k = lemma_trimmed_end(rest);
    let to = from + k;
    assert(rest.take(k) =~= s.subrange(from, to));
    assert forall|i: int| to <= i < s.len() implies is_space(#[trigger] s[i]) by {
        assert(rest[i - from] == s[i]);
    }
    if from < to {
        assert(rest[k - 1] == s[to - 1]);
    }
    assert(is_trimmed_to(s, from, to));
}

// ---------------------------------------------------------------------------
// Words

proof fn lemma_words_prefix(a: Seq<char>, b: Seq<char>, unicode: bool, n: nat)
    requires
        n <= a.len(),
    ensures
        words_read(a + b, unicode, n) == words_read(a, unicode, n),
    decreases n,
{
    if n > 0 {
        lemma_words_prefix(a, b, unicode, (n - 1) as nat);
        assert((a + b)[n - 1] == a[n - 1]);
    }
}

proof fn lemma_words_behind(a: Seq<char>, c: char, b: Seq<char>, unicode: bool, n: nat)
    requires
        separates(unicode, c),
        n <= b.len(),
    ensures
        ({
            let (done, word) = words_read(b, unicode, n);
            words_read(a.push(c) + b, unicode, a.len() + 1 + n) == (words(a, unicode) + done, word)
        }),
    decreases n,
{
    let s = a.push(c) + b;
    if n == 0 {
        assert(s =~= a + (seq![c] + b));
        lemma_words_prefix(a, seq![c] + b, unicode, a.len());
        assert(s[a.len() as int] == c);
        assert(words(a, unicode) + Seq::<Seq<char>>::empty() =~= words(a, unicode));
        let (done, word) = words_read(s, unicode, a.len() + 1);
        assert(done =~= words(a, unicode));
        assert(word =~= Seq::<char>::empty());
    } else {
        lemma_words_behind(a, c, b, unicode, (n - 1) as nat);
        assert(s[a.len() as int + n] == b[n - 1]);
        let (done, word) = words_read(b, unicode, (n - 1) as nat);
        if separates(unicode, b[n - 1]) && word.len() > 0 {
            assert(words(a, unicode) + done.push(word) =~= (words(a, unicode) + done).push(word));
        }
    }
}

proof fn lemma_one_word(s: Seq<char>, unicode: bool, n: nat)
    requires
        n <= s.len(),
        forall|i: int| 0 <= i < s.len() ==> !separates(unicode, #[trigger] s[i]),
    ensures
        words_read(s, unicode, n) == (Seq::<Seq<char>>::empty(), s.take(n as int)),
    decreases n,
{
    if n > 0 {
        lemma_one_word(s, unicode, (n - 1) as nat);
        assert(!separates(unicode, s[n - 1]));
        assert(s.take(n as int) =~= s.take(n - 1).push(s[n - 1]));
    } else {
        assert(s.take(0) =~= Seq::<char>::empty());
    }
}

/// Words are parted by each character that separates words, and by no other: a text without any
/// is one word, and the words of two texts with one between them are those of the one and then
/// those of the other.
pub proof fn space_parts_words(a: Seq<char>, c: char, b: Seq<char>, unicode: bool)
    requires
        separates(unicode, c),
    ensures
        words(a.push(c) + b, unicode) == words(a, unicode) + words(b, unicode),
        (forall|i: int| 0 <= i < a.len() ==> !separates(unicode, #[trigger] a[i])) ==> words(
            a,
            unicode,
        ) == if a.len() == 0 {
            Seq::<Seq<char>>::empty()
        } else {
            seq![a]
        },
{
    lemma_words_behind(a, c, b, unicode, b.len());
    let s = a.push(c) + b;
    assert(s.len() == a.len() + 1 + b.len());
    let (done, word) = words_read(b, unicode, b.len());
    assert(words(a, unicode) + done.push(word) =~= (words(a, unicode) + done).push(word));
    if forall|i: int| 0 <= i < a.len() ==> !separates(unicode, #[trigger] a[i]) {
        lemma_one_word(a, unicode, a.len());
        assert(a.take(a.len() as int) =~= a);
        assert(words(a, unicode) =~= if a.len() == 0 {
            Seq::<Seq<char>>::empty()
        } else {
            seq![a]
        });
    }
}

// ---------------------------------------------------------------------------
// Lines

proof fn lemma_lines_prefix(a: Seq<char>, b: Seq<char>, n: nat)
    requires
        n <= a.len(),
    ensures
        lines_read(a + b, n) == lines_read(a, n),
    decreases n,
{
    if n > 0 {
        lemma_lines_prefix(a, b, (n - 1) as nat);
        assert((a + b)[n - 1] == a[n - 1]);
    }
}

proof fn lemma_lines_behind(a: Seq<char>, b: Seq<char>, n: nat)
    requires
        n <= b.len(),
    ensures
        ({
            let (done, line) = lines_read(b, n);
            lines_read(a.push('\n') + b, a.len() + 1 + n) == (lines_in(a) + done, line)
        }),
    decreases n,
{
    let s = a.push('\n') + b;
    if n == 0 {
        assert(s =~= a + (seq!['\n'] + b));
        lemma_lines_prefix(a, seq!['\n'] + b, a.len());
        assert(s[a.len() as int] == '\n');
        let (done, line) = lines_read(s, a.len() + 1);
        assert(done =~= lines_in(a) + Seq::<Seq<char>>::empty());
    } else {
        lemma_lines_behind(a, b, (n - 1) as nat);
        assert(s[a.len() as int + n] == b[n - 1]);
        let (done, line) = lines_read(b, (n - 1) as nat);
        if b[n - 1] == '\n' {
            assert(lines_in(a) + done.push(line) =~= (lines_in(a) + done).push(line));
        }
    }
}

proof fn lemma_one_line(s: Seq<char>, n: nat)
    requires
        n <= s.len(),
        !s.contains('\n'),
    ensures
        lines_read(s, n) == (Seq::<Seq<char>>::empty(), s.take(n as int)),
    decreases n,
{
    if n > 0 {
        lemma_one_line(s, (n - 1) as nat);
        assert(s[n - 1] != '\n') by {
            assert(s.contains(s[n - 1]));
        }
        assert(s.take(n as int) =~= s.take(n - 1).push(s[n - 1]));
    } else {
        assert(s.take(0) =~= Seq::<char>::empty());
    }
}

/// Lines are parted by each line break, and by nothing else.
pub proof fn line_breaks_part_lines(a: Seq<char>, b: Seq<char>)
    ensures
        lines_in(a.push('\n') + b) == lines_in(a) + lines_in(b),
        !a.contains('\n') ==> lines_in(a) == seq![a],
{
    lemma_lines_behind(a, b, b.len());
    let (done, line) = lines_read(b, b.len());
    assert(lines_in(a) + done.push(line) =~= (lines_in(a) + done).push(line));
    assert((a.push('\n') + b).len() == a.len() + 1 + b.len());
    if !a.contains('\n') {
        lemma_one_line(a, a.len());
        assert(a.take(a.len() as int) =~= a);
        assert(lines_in(a) =~= seq![a]);
    }
}

// ---------------------------------------------------------------------------
// Parts

proof fn lemma_first(s: Seq<char>, part: Seq<char>, from: int)
    requires
        0 <= from,
    ensures
        match first_part(s, part, from) {
            Some(at) => from <= at && stands_at(s, part, at) && forall|i: int|
                from <= i < at ==> !#[trigger] stands_at(s, part, i),
            None => forall|i: int| from <= i ==> !#[trigger] stands_at(s, part, i),
        },
    decreases s.len() - from + 1,
{
    if from <= s.len() && !stands_at(s, part, from) {
        lemma_first(s, part, from + 1);
    }
}

/// A text is parted where the part stands first: what comes before, the part and what comes after
/// make the text, and the part cannot be found any earlier. Without the part it is not parted.
pub proof fn a_text_is_parted_at_the_first_part(s: Seq<char>, part: Seq<char>)
    ensures
        match parted(s, part) {
            Some((left, right)) => s == left + part + right && forall|i: int|
                0 <= i < left.len() ==> !#[trigger] stands_at(s, part, i),
            None => !has_part(s, part),
        },
{
    lemma_first(s, part, 0);
    match first_part(s, part, 0) {
        Some(at) => {
            assert(s =~= s.take(at) + part + s.skip(at + part.len())) by {
                assert(s.subrange(at, at + part.len()) == part);
                assert forall|i: int| at <= i < at + part.len() implies s[i] == part[i - at] by {
                    assert(s.subrange(at, at + part.len())[i - at] == s[i]);
                }
            }
        },
        None => {
            assert forall|i: int| !stands_at(s, part, i) by {}
        },
    }
}

/// Filling up a text puts the character before it, as often as it takes and no more.
pub proof fn padding_comes_before(s: Seq<char>, c: char, width: nat)
    ensures
        padded(s, c, width).len() == if s.len() < width {
            width
        } else {
            s.len()
        },
        padded(s, c, width).skip(padded(s, c, width).len() - s.len()) == s,
        forall|i: int|
            0 <= i < padded(s, c, width).len() - s.len() ==> #[trigger] padded(s, c, width)[i] == c,
{
    let p = padded(s, c, width);
    assert(p.skip(p.len() - s.len()) =~= s);
}

/// Cutting a text leaves its beginning.
pub proof fn cutting_leaves_the_beginning(s: Seq<char>, len: nat)
    ensures
        cut(s, len as int).len() <= len,
        s.len() <= len ==> cut(s, len as int) == s,
        s.len() > len ==> cut(s, len as int).len() == len,
        forall|i: int| 0 <= i < cut(s, len as int).len() ==> #[trigger] cut(s, len as int)[i] == s[i],
{
}

// ---------------------------------------------------------------------------
// Order

/// Texts are put in the order of the first character in which they differ, and a text before those
/// that it begins.
pub proof fn texts_are_ordered_by_their_characters(a: Seq<char>, b: Seq<char>, k: int)
    requires
        0 <= k <= a.len(),
        k <= b.len(),
        forall|i: int| 0 <= i < k ==> a[i] == b[i],
        k < a.len() && k < b.len() ==> a[k] != b[k],
    ensures
        k < a.len() && k < b.len() ==> text_leq(a, b) == (a[k] < b[k]),
        k == a.len() ==> text_leq(a, b),
        k == b.len() && k < a.len() ==> !text_leq(a, b),
    decreases k,
{
    if k > 0 {
        let x = a.drop_first();
        let y = b.drop_first();
        assert(a[0] == b[0]);
        texts_are_ordered_by_their_characters(x, y, k - 1);
        if k < a.len() && k < b.len() {
            assert(x[k - 1] == a[k] && y[k - 1] == b[k]);
        }
    }
}

/// Lists of texts are put in the order of the first text in which they differ.
pub proof fn lists_are_ordered_by_their_texts(a: Seq<Seq<char>>, b: Seq<Seq<char>>, k: int)
    requires
        0 <= k <= a.len(),
        k <= b.len(),
        forall|i: int| 0 <= i < k ==> a[i] == b[i],
        k < a.len() && k < b.len() ==> a[k] != b[k],
    ensures
        k < a.len() && k < b.len() ==> texts_leq(a, b) == text_leq(a[k], b[k]),
        k == a.len() ==> texts_leq(a, b),
        k == b.len() && k < a.len() ==> !texts_leq(a, b),
    decreases k,
{
    if k > 0 {
        let x = a.drop_first();
        let y = b.drop_first();
        assert(a[0] == b[0]);
        lists_are_ordered_by_their_texts(x, y, k - 1);
        if k < a.len() && k < b.len() {
            assert(x[k - 1] == a[k] && y[k - 1] == b[k]);
        }
    }
}

} // verus!
