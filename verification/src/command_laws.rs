//! What holds of the commands that a user can enter.

use crate::command::{argument, command_of, filled, repeated, CommandView};
use crate::tasks::making_laws::decimal_round_trip;
use crate::tasks::FilterView;
use crate::text::{
    begins_with, byte_len, decimal, is_digit, is_space, lemma_byte_len, lines_in, trimmed,
    unsigned_value, without_leading, words,
};
use crate::text_laws::{is_trimmed_to, trimming_takes_space_from_both_ends};
use vstd::prelude::*;

verus! {

proof fn lemma_argument(op: char, rest: Seq<char>)
    requires
        rest.len() > 0,
    ensures
        argument(seq![op] + rest) == Some(trimmed(rest)),
{
    let text = seq![op] + rest;
    lemma_byte_len(text);
    assert(text.skip(1) =~= rest);
}

proof fn lemma_alone(op: char)
    requires
        (op as u32) < 0x80,
    ensures
        argument(seq![op]) is None,
{
    let text = seq![op];
    assert(text.drop_last() =~= Seq::<char>::empty());
    assert(byte_len(text.drop_last()) == 0);
    assert(byte_len(text) == 1);
}

/// What follows an operator is what the command is about, without space around it.
pub proof fn an_operator_takes_what_follows(rest: Seq<char>)
    requires
        rest.len() > 0,
    ensures
        command_of(seq!['>'] + rest) == CommandView::Finish(trimmed(rest)),
        command_of(seq!['<'] + rest) == CommandView::Close(trimmed(rest)),
        command_of(seq!['!'] + rest) == CommandView::SetState(trimmed(rest)),
        command_of(seq!['+'] + rest) == CommandView::AddTag(trimmed(rest)),
        command_of(seq!['-'] + rest) == CommandView::RemoveTag(trimmed(rest)),
        command_of(seq![')'] + rest) == CommandView::StopAt(trimmed(rest)),
        command_of(seq!['#'] + rest) == CommandView::Tags(words(trimmed(rest), true)),
{
    lemma_argument('>', rest);
    lemma_argument('<', rest);
    lemma_argument('!', rest);
    lemma_argument('+', rest);
    lemma_argument('-', rest);
    lemma_argument(')', rest);
    lemma_argument('#', rest);
}

/// Operators that are doubled, or that a number or their own sign may follow, take any other text
/// as what the command is about.
pub proof fn an_operator_takes_any_other_text(rest: Seq<char>)
    requires
        rest.len() > 0,
    ensures
        ({
            let a = trimmed(rest);
            &&& a != "@"@ ==> command_of(seq!['@'] + rest) == CommandView::By(a)
            &&& a != "?"@ ==> command_of(seq!['?'] + rest) == CommandView::States(
                FilterView::State(a),
            )
            &&& byte_len(trimmed(a)) >= 2 ==> command_of(seq![','] + rest) == CommandView::Note(a)
            &&& a.len() > 0 && a[0] != '|' ==> command_of(seq!['|'] + rest) == CommandView::Sibling(
                a,
            )
            &&& a.len() > 0 && a[0] == '|' ==> command_of(seq!['|'] + rest)
                == CommandView::EnterProcedure(without_leading(a, '|'))
            &&& a.len() > 0 && a[0] != '(' ==> command_of(seq!['('] + rest) == CommandView::Track(a)
            &&& a != "&"@ && unsigned_value(a, 255) is None ==> command_of(seq!['&'] + rest)
                == CommandView::BackTo(a)
        }),
{
    lemma_argument('@', rest);
    lemma_argument('?', rest);
    lemma_argument(',', rest);
    lemma_argument('|', rest);
    lemma_argument('(', rest);
    lemma_argument('&', rest);
}

/// What each operator does alone.
pub proof fn an_operator_stands_alone()
    ensures
        command_of(Seq::<char>::empty()) == CommandView::Show,
        command_of(seq!['&']) == CommandView::Undo,
        command_of(seq!['@']) == CommandView::Recent,
        command_of(seq!['*']) == CommandView::Pin,
        command_of(seq!['|']) == CommandView::Procedure,
        command_of(seq!['?']) == CommandView::States(FilterView::Default),
        command_of(seq!['+']) == CommandView::ListTags,
        command_of(seq!['-']) == CommandView::ClearFilters,
        command_of(seq![')']) == CommandView::Stop,
        command_of(seq!['/']) == CommandView::Root,
        command_of(seq![':']) == CommandView::Columns,
        command_of(seq![',']) == CommandView::Changes,
        command_of(seq!['(']) == CommandView::Times(60),
        command_of(seq!['>']) == CommandView::Finish(Seq::empty()),
        command_of(seq!['<']) == CommandView::Close(Seq::empty()),
        command_of(seq!['!']) == CommandView::SetState(Seq::empty()),
{
    lemma_alone('&');
    lemma_alone('@');
    lemma_alone('*');
    lemma_alone('|');
    lemma_alone('?');
    lemma_alone('+');
    lemma_alone('-');
    lemma_alone(')');
    lemma_alone('/');
    lemma_alone(':');
    lemma_alone(',');
    lemma_alone('(');
    lemma_alone('>');
    lemma_alone('<');
    lemma_alone('!');
    reveal_strlit("://");
    assert("://"@.len() == 3);
}

pub proof fn lemma_no_space(s: Seq<char>)
    requires
        forall|i: int| 0 <= i < s.len() ==> !is_space(#[trigger] s[i]),
    ensures
        trimmed(s) == s,
{
    trimming_takes_space_from_both_ends(s);
    let (from, to) = choose|from: int, to: int|
        #[trigger] is_trimmed_to(s, from, to) && trimmed(s) == s.subrange(from, to);
    if s.len() > 0 {
        assert(from == 0) by {
            if from > 0 {
                assert(is_space(s[0]));
            }
        }
        assert(to == s.len()) by {
            if to < s.len() {
                assert(is_space(s[s.len() - 1]));
            }
        }
    }
    assert(s.subrange(from, to) =~= s);
}

proof fn lemma_number(n: nat, max: int)
    requires
        n <= max,
    ensures
        unsigned_value(decimal(n), max) == Some(n as int),
        trimmed(decimal(n)) == decimal(n),
        decimal(n).len() > 0,
        byte_len(decimal(n)) == decimal(n).len(),
        is_digit(decimal(n)[0]),
{
    decimal_round_trip(n);
    let d = decimal(n);
    assert(is_digit(d[0]));
    assert forall|i: int| 0 <= i < d.len() implies !is_space(#[trigger] d[i]) by {
        assert(is_digit(d[i]));
    }
    lemma_no_space(d);
    assert forall|i: int| 0 <= i < d.len() implies (#[trigger] d[i] as u32) < 0x80 by {
        assert(is_digit(d[i]));
    }
    lemma_ascii_len(d);
}

proof fn lemma_ascii_len(s: Seq<char>)
    requires
        forall|i: int| 0 <= i < s.len() ==> (#[trigger] s[i] as u32) < 0x80,
    ensures
        byte_len(s) == s.len(),
    decreases s.len(),
{
    if s.len() > 0 {
        let rest = s.drop_last();
        assert forall|i: int| 0 <= i < rest.len() implies (#[trigger] rest[i] as u32) < 0x80 by {
            assert(rest[i] == s[i]);
        }
        lemma_ascii_len(rest);
        assert((s[s.len() - 1] as u32) < 0x80);
    }
}

/// A number behind an ampersand goes back by so many steps; behind an asterisk it is the priority
/// to filter by, in tens where it is a single digit.
pub proof fn an_operator_takes_a_number(n: nat)
    ensures
        n <= 255 ==> command_of(seq!['&'] + decimal(n)) == CommandView::BackBy(n as int),
        n <= 65535 ==> command_of(seq!['*'] + decimal(n)) == CommandView::Priority(
            Some(
                if n < 10 {
                    (10 * n) as u16
                } else {
                    n as u16
                },
            ),
        ),
{
    lemma_number(n, n as int);
    let d = decimal(n);
    lemma_argument('&', d);
    lemma_argument('*', d);
    reveal_strlit("&");
    reveal_strlit("*");
    assert("&"@[0] == '&' && "*"@[0] == '*');
    if n <= 255 {
        lemma_number(n, 255);
    }
    if n <= 65535 {
        lemma_number(n, 65535);
        if n >= 10 {
            decimal_round_trip(n / 10);
            assert(decimal(n) == decimal(n / 10).push((('0' as u32) + n % 10) as char));
        }
    }
}

/// Whether a text is so many copies of a character.
pub open spec fn is_run(s: Seq<char>, c: char, count: nat) -> bool {
    s.len() == count && forall|i: int| 0 <= i < s.len() ==> #[trigger] s[i] == c
}

proof fn lemma_run(run: Seq<char>, c: char, count: nat, rest: Seq<char>)
    requires
        is_run(run, c, count),
        rest.len() == 0 || rest[0] != c,
    ensures
        without_leading(run + rest, c) == rest,
    decreases count,
{
    let text = run + rest;
    if count > 0 {
        assert(text[0] == run[0]);
        let shorter = run.drop_first();
        assert(text.drop_first() =~= shorter + rest);
        lemma_run(shorter, c, (count - 1) as nat, rest);
    } else {
        assert(text =~= rest);
    }
}

proof fn lemma_repeated(run: Seq<char>, c: char, count: nat, rest: Seq<char>)
    requires
        is_run(run, c, count),
        0 < count <= usize::MAX,
        (c as u32) < 0x80,
        rest.len() == 0 || rest[0] != c,
    ensures
        repeated(run + rest, c) == count - 1,
        without_leading(run + rest, c) == rest,
{
    lemma_run(run, c, count, rest);
    let text = run + rest;
    assert(text.take(text.len() - rest.len()) =~= run);
    lemma_ascii_len(run);
}

/// Each dot or slash but the first moves up by one level before the command acts: on a text that
/// follows, on a depth, or alone.
pub proof fn dots_and_slashes_are_counted(run: Seq<char>, count: nat, rest: Seq<char>, depth: nat)
    requires
        0 < count <= usize::MAX,
        rest.len() > 0,
        rest[0] != '.' && rest[0] != '/',
        unsigned_value(rest, usize::MAX as int) is None,
        depth < 10,
    ensures
        is_run(run, '.', count) ==> {
            &&& command_of(run) == CommandView::Up(count - 1)
            &&& command_of(run + decimal(depth)) == CommandView::Depth(count - 1, depth as int)
            &&& command_of(run + rest) == CommandView::Enter(count - 1, rest)
        },
        is_run(run, '/', count) ==> {
            &&& count > 1 ==> command_of(run) == CommandView::Over(count - 1)
            &&& command_of(run + decimal(depth)) == CommandView::SearchDepth(
                count - 1,
                depth as int,
            )
            &&& command_of(run + rest) == CommandView::Search(count - 1, rest)
        },
{
    let none = Seq::<char>::empty();
    assert(run + none =~= run);
    lemma_number(depth, usize::MAX as int);
    let d = decimal(depth);
    if is_run(run, '.', count) {
        lemma_repeated(run, '.', count, none);
        lemma_repeated(run, '.', count, rest);
        lemma_repeated(run, '.', count, d);
        assert(run[0] == '.');
        assert((run + d)[0] == run[0] && (run + rest)[0] == run[0]);
    }
    if is_run(run, '/', count) {
        lemma_repeated(run, '/', count, none);
        lemma_repeated(run, '/', count, rest);
        lemma_repeated(run, '/', count, d);
        assert(run[0] == '/');
        assert((run + d)[0] == run[0] && (run + rest)[0] == run[0]);
        lemma_byte_len(run + d);
        lemma_byte_len(run + rest);
        lemma_byte_len(run);
    }
}

/// Text with line breaks makes a task of each line that is not blank, in order.
pub proof fn each_line_makes_a_task(text: Seq<char>)
    requires
        text.contains('\n'),
        is_plain_start(text),
    ensures
        command_of(text) == CommandView::Tasks(
            lines_in(text).filter(|line: Seq<char>| trimmed(line).len() > 0),
        ),
{
    lemma_plain_start(text);
    lemma_filled(lines_in(text));
}

proof fn lemma_filled(lines: Seq<Seq<char>>)
    ensures
        filled(lines) == lines.filter(|line: Seq<char>| trimmed(line).len() > 0),
    decreases lines.len(),
{
    reveal(Seq::filter);
    if lines.len() > 0 {
        lemma_filled(lines.drop_last());
    } else {
        assert(lines =~= Seq::<Seq<char>>::empty());
    }
}

/// Whether a text starts with no operator and is no address.
pub open spec fn is_plain_start(text: Seq<char>) -> bool {
    &&& text.len() > 0
    &&& !seq![
        ':', ',', '>', '<', '&', '@', '*', '|', '?', '!', '#', '+', '-', '(', ')', '.', '/',
    ].contains(text[0])
    &&& !begins_with(trimmed(text), "ws://"@)
    &&& !begins_with(trimmed(text), "wss://"@)
}

proof fn lemma_plain_start(text: Seq<char>)
    requires
        is_plain_start(text),
    ensures
        text[0] != ':' && text[0] != ',' && text[0] != '>' && text[0] != '<' && text[0] != '&',
        text[0] != '@' && text[0] != '*' && text[0] != '|' && text[0] != '?' && text[0] != '!',
        text[0] != '#' && text[0] != '+' && text[0] != '-' && text[0] != '(' && text[0] != ')',
        text[0] != '.' && text[0] != '/',
{
    let ops = seq![
        ':', ',', '>', '<', '&', '@', '*', '|', '?', '!', '#', '+', '-', '(', ')', '.', '/',
    ];
    assert(ops[0] == ':' && ops[1] == ',' && ops[2] == '>' && ops[3] == '<' && ops[4] == '&');
    assert(ops[5] == '@' && ops[6] == '*' && ops[7] == '|' && ops[8] == '?' && ops[9] == '!');
    assert(ops[10] == '#' && ops[11] == '+' && ops[12] == '-' && ops[13] == '(');
    assert(ops[14] == ')' && ops[15] == '.' && ops[16] == '/');
}

/// Any other text is the name of a task, or the beginning of one.
pub proof fn other_text_is_a_name(text: Seq<char>)
    requires
        is_plain_start(text),
        !text.contains('\n'),
    ensures
        command_of(text) == CommandView::Match(text),
{
    lemma_plain_start(text);
}

} // verus!
