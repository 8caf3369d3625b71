//! ANSI escape sequences, which colour what a test runner prints.

use crate::text::chars_of;
use vstd::prelude::*;

verus! {

/// The character that starts an escape sequence.
pub const ESC: char = '\u{1b}';

/// An ASCII letter, which ends an escape sequence.
pub open spec fn is_letter(c: char) -> bool {
    'a' <= c <= 'z' || 'A' <= c <= 'Z'
}

/// What `s` shows, where `inside` says that `s` starts inside an escape sequence.
///
/// A sequence is `ESC [` and all that follows up to a letter; an `ESC` without the bracket is
/// dropped alone.
pub open spec fn visible(s: Seq<char>, inside: bool) -> Seq<char>
    decreases s.len(),
{
    if s.len() == 0 {
        Seq::empty()
    } else if inside {
        visible(s.drop_first(), !is_letter(s[0]))
    } else if s[0] != ESC {
        seq![s[0]] + visible(s.drop_first(), false)
    } else if s.len() > 1 && s[1] == '[' {
        visible(s.skip(2), true)
    } else {
        visible(s.drop_first(), false)
    }
}

/// `s` without its escape sequences.
pub open spec fn stripped(s: Seq<char>) -> Seq<char> {
    visible(s, false)
}

/// Removes the ANSI escape sequences from a string.
pub fn strip_ansi_codes(s: &str) -> (r: String)
    ensures
        r@ == stripped(s@),
{
    let chars: Vec<char> = chars_of(s);
    let mut out: String = String::new();
    let mut i: usize = 0;
    let mut inside: bool = false;
    assert(chars@.skip(0) =~= chars@);
    assert(out@ + visible(chars@, false) =~= visible(chars@, false));
    while i < chars.len()
        invariant
            i <= chars@.len(),
            chars@ == s@,
            out@ + visible(chars@.skip(i as int), inside) == stripped(s@),
        decreases chars@.len() - i,
    {
        let c: char = chars[i];
        let ghost rest = chars@.skip(i as int);
        let ghost before = out@;
        assert(rest.drop_first() =~= chars@.skip(i + 1));
        if inside {
            inside = !(('a' <= c && c <= 'z') || ('A' <= c && c <= 'Z'));
            i = i + 1;
        } else if c != ESC {
            out.push(c);
            i = i + 1;
            assert(before + (seq![c] + visible(rest.drop_first(), false)) =~= out@ + visible(
                rest.drop_first(),
                false,
            ));
        } else if chars.len() - i > 1 && chars[i + 1] == '[' {
            assert(rest.skip(2) =~= chars@.skip(i + 2));
            inside = true;
            i = i + 2;
        } else {
            i = i + 1;
        }
    }
    assert(out@ + visible(chars@.skip(i as int), inside) =~= out@);
    out
}

/// No escape character is left.
pub proof fn law_no_escape_left(s: Seq<char>)
    ensures
        !stripped(s).contains(ESC),
{
    lemma_visible_has_no_escape(s, false);
}

proof fn lemma_visible_has_no_escape(s: Seq<char>, inside: bool)
    ensures
        !visible(s, inside).contains(ESC),
    decreases s.len(),
{
    if s.len() > 0 {
        lemma_visible_has_no_escape(s.drop_first(), !is_letter(s[0]));
        lemma_visible_has_no_escape(s.drop_first(), false);
        if !inside && s[0] != ESC {
            let v = visible(s, inside);
            let rest = visible(s.drop_first(), false);
            assert forall|i: int| 0 <= i < v.len() implies v[i] != ESC by {
                if i > 0 {
                    assert(v[i] == rest[i - 1]);
                }
            }
        } else if !inside && s.len() > 1 && s[1] == '[' {
            lemma_visible_has_no_escape(s.skip(2), true);
        }
    }
}

/// Text without escape sequences in front of others stays as it is.
pub proof fn law_plain_text_stays(plain: Seq<char>, rest: Seq<char>)
    requires
        !plain.contains(ESC),
    ensures
        stripped(plain + rest) == plain + stripped(rest),
        stripped(plain) == plain,
{
    lemma_plain(plain, rest);
    lemma_plain(plain, Seq::empty());
    assert(plain + Seq::<char>::empty() =~= plain);
    assert(plain + stripped(Seq::empty()) =~= plain);
}

proof fn lemma_plain(plain: Seq<char>, rest: Seq<char>)
    requires
        !plain.contains(ESC),
    ensures
        stripped(plain + rest) == plain + stripped(rest),
    decreases plain.len(),
{
    if plain.len() > 0 {
        let tail = plain.drop_first();
        let s = plain + rest;
        assert(plain[0] != ESC);
        assert(s[0] == plain[0]);
        assert(s.drop_first() =~= tail + rest);
        assert forall|i: int| 0 <= i < tail.len() implies tail[i] != ESC by {
            assert(tail[i] == plain[i + 1]);
        }
        lemma_plain(tail, rest);
        assert(seq![plain[0]] + (tail + stripped(rest)) =~= plain + stripped(rest));
    } else {
        assert(plain + rest =~= rest);
        assert(plain + stripped(rest) =~= stripped(rest));
    }
}

/// Stripping a text twice is stripping it once.
pub proof fn law_strip_twice(s: Seq<char>)
    ensures
        stripped(stripped(s)) == stripped(s),
{
    law_no_escape_left(s);
    law_plain_text_stays(stripped(s), Seq::empty());
}

/// An escape sequence shows nothing: `ESC [`, its parameters and the letter that ends it.
pub proof fn law_sequence_shows_nothing(parameters: Seq<char>, end: char, rest: Seq<char>)
    requires
        forall|i: int| 0 <= i < parameters.len() ==> !is_letter(#[trigger] parameters[i]),
        is_letter(end),
    ensures
        stripped(seq![ESC, '['] + parameters.push(end) + rest) == stripped(rest),
{
    let s = seq![ESC, '['] + parameters.push(end) + rest;
    assert(s[0] == ESC && s[1] == '[');
    assert(s.skip(2) =~= parameters.push(end) + rest);
    lemma_inside(parameters, end, rest);
}

proof fn lemma_inside(parameters: Seq<char>, end: char, rest: Seq<char>)
    requires
        forall|i: int| 0 <= i < parameters.len() ==> !is_letter(#[trigger] parameters[i]),
        is_letter(end),
    ensures
        visible(parameters.push(end) + rest, true) == stripped(rest),
    decreases parameters.len(),
{
    let s = parameters.push(end) + rest;
    if parameters.len() > 0 {
        let tail = parameters.drop_first();
        assert(s[0] == parameters[0]);
        assert(s.drop_first() =~= tail.push(end) + rest);
        assert forall|i: int| 0 <= i < tail.len() implies !is_letter(#[trigger] tail[i]) by {
            assert(tail[i] == parameters[i + 1]);
        }
        lemma_inside(tail, end, rest);
    } else {
        assert(s[0] == end);
        assert(s.drop_first() =~= rest);
    }
}

/// Each sequence ends with the first letter of the alphabet in it, small or capital, and shows
/// nothing; what follows is shown as it would be alone.
pub proof fn law_first_letter_ends_a_sequence(parameters: Seq<char>, end: char, rest: Seq<char>)
    requires
        forall|i: int|
            0 <= i < parameters.len() ==> !('a' <= #[trigger] parameters[i] <= 'z') && !('A'
                <= parameters[i] <= 'Z'),
        'a' <= end <= 'z' || 'A' <= end <= 'Z',
    ensures
        stripped("\u{1b}["@ + parameters.push(end) + rest) == stripped(rest),
{
    reveal_strlit("\u{1b}[");
    assert("\u{1b}["@ =~= seq![ESC, '[']);
    assert forall|i: int| 0 <= i < parameters.len() implies !is_letter(#[trigger] parameters[i]) by {}
    law_sequence_shows_nothing(parameters, end, rest);
}

/// A sequence that never ends shows nothing.
pub proof fn law_endless_sequence_shows_nothing(parameters: Seq<char>)
    requires
        forall|i: int|
            0 <= i < parameters.len() ==> !('a' <= #[trigger] parameters[i] <= 'z') && !('A'
                <= parameters[i] <= 'Z'),
    ensures
        stripped("\u{1b}["@ + parameters) == Seq::<char>::empty(),
{
    reveal_strlit("\u{1b}[");
    let s = "\u{1b}["@ + parameters;
    assert(s.skip(2) =~= parameters);
    lemma_endless(parameters);
}

proof fn lemma_endless(parameters: Seq<char>)
    requires
        forall|i: int|
            0 <= i < parameters.len() ==> !('a' <= #[trigger] parameters[i] <= 'z') && !('A'
                <= parameters[i] <= 'Z'),
    ensures
        visible(parameters, true) == Seq::<char>::empty(),
    decreases parameters.len(),
{
    if parameters.len() > 0 {
        let tail = parameters.drop_first();
        assert(!is_letter(parameters[0]));
        assert forall|i: int| 0 <= i < tail.len() implies !('a' <= #[trigger] tail[i] <= 'z') && !(
        'A' <= tail[i] <= 'Z') by {
            assert(tail[i] == parameters[i + 1]);
        }
        lemma_endless(tail);
    }
}

/// An escape character without a bracket behind it is dropped alone.
pub proof fn law_lone_escape_goes_alone(rest: Seq<char>)
    requires
        rest.len() > 0 ==> rest[0] != '[',
    ensures
        stripped("\u{1b}"@ + rest) == stripped(rest),
{
    reveal_strlit("\u{1b}");
    let s = "\u{1b}"@ + rest;
    assert(s[0] == ESC);
    assert(s.drop_first() =~= rest);
    if s.len() > 1 {
        assert(s[1] == rest[0]);
    }
}

} // verus!
