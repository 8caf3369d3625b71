//! Lines that tell of a failure.

use crate::text;
use vstd::prelude::*;

verus! {

/// The upper-case form of a text.
pub uninterp spec fn uppercase(s: Seq<char>) -> Seq<char>;

/// A text of ASCII characters only.
pub open spec fn is_ascii_text(s: Seq<char>) -> bool {
    forall|i: int| 0 <= i < s.len() ==> (#[trigger] s[i]) as u32 <= 0x7f
}

/// An ASCII letter in upper case; any other character as it is.
pub open spec fn ascii_upper(c: char) -> char {
    if 'a' <= c <= 'z' {
        (c as u32 - 32) as char
    } else {
        c
    }
}

/// A text with its ASCII letters in upper case.
pub open spec fn ascii_uppercase(s: Seq<char>) -> Seq<char> {
    s.map_values(|c: char| ascii_upper(c))
}

/// `str::to_uppercase` gives the upper-case form of the text, which depends on the text alone. It
/// goes through the text character by character, so that the form of a text is that of its start
/// and that of its rest; of ASCII characters it changes the letters from `a` to `z`, and no
/// others. What becomes of other characters is not said.
pub assume_specification[ str::to_uppercase ](s: &str) -> (r: String)
    ensures
        r@ == uppercase(s@),
        forall|n: int|
            0 <= n <= s@.len() ==> r@ == #[trigger] uppercase(s@.take(n)) + uppercase(s@.skip(n)),
        forall|n: int|
            0 <= n <= s@.len() && is_ascii_text(s@.take(n)) ==> r@ == ascii_uppercase(
                #[trigger] s@.take(n),
            ) + uppercase(s@.skip(n)),
;

/// A line, given without the white space it starts with and once more in upper case, that tells
/// of a failure.
pub open spec fn tells_failure(trimmed: Seq<char>, upper: Seq<char>) -> bool {
    ||| "FAIL"@.is_prefix_of(trimmed)
    ||| "✗"@.is_prefix_of(trimmed)
    ||| "×"@.is_prefix_of(trimmed)
    ||| "Error:"@.is_prefix_of(trimmed)
    ||| "error:"@.is_prefix_of(trimmed)
    ||| "ERROR"@.is_prefix_of(upper)
    ||| text::contains(trimmed, "AssertionError"@)
    ||| text::contains(trimmed, "Expected:"@)
    ||| text::contains(trimmed, "Received:"@)
    ||| text::contains(trimmed, "- Expected"@)
    ||| text::contains(trimmed, "+ Received"@)
    ||| "at "@.is_prefix_of(trimmed) && text::contains(trimmed, ":"@)
    ||| "●"@.is_prefix_of(trimmed)
}

/// A line that tells of a failure.
pub open spec fn is_failure(line: Seq<char>) -> bool {
    let trimmed = text::trim_start(line);
    tells_failure(trimmed, uppercase(trimmed))
}

/// Whether a line, given without the white space it starts with and once more in upper case,
/// tells of a failure.
pub fn is_failure_text(trimmed: &str, upper: &str) -> (r: bool)
    ensures
        r == tells_failure(trimmed@, upper@),
{
    let t: Vec<char> = text::chars_of(trimmed);
    let u: Vec<char> = text::chars_of(upper);
    let t: &[char] = t.as_slice();
    text::starts_with(t, "FAIL") || text::starts_with(t, "✗") || text::starts_with(
        t,
        "×",
    ) || text::starts_with(t, "Error:") || text::starts_with(t, "error:") || text::starts_with(
        u.as_slice(),
        "ERROR",
    ) || text::contains_text(t, "AssertionError") || text::contains_text(t, "Expected:")
        || text::contains_text(t, "Received:") || text::contains_text(t, "- Expected")
        || text::contains_text(t, "+ Received") || (text::starts_with(t, "at ")
        && text::contains_text(t, ":")) || text::starts_with(t, "●")
}

/// The text starts with the word `error`, in whatever case.
pub open spec fn starts_with_error(s: Seq<char>) -> bool {
    s.len() >= 5 && ascii_uppercase(s.take(5)) == "ERROR"@
}

/// Whether a line tells of a failure: a failure marker, an error message, a line of a stack
/// trace, or what an assertion expected and received. White space in front makes no difference,
/// and no text behind hides a failure.
pub fn is_failure_line(line: &str) -> (r: bool)
    ensures
        r == is_failure(line@),
        is_ascii_text(text::trim_start(line@)) ==> r == tells_failure(
            text::trim_start(line@),
            ascii_uppercase(text::trim_start(line@)),
        ),
        starts_with_error(text::trim_start(line@)) ==> r,
        forall|lead: Seq<char>, start: Seq<char>, rest: Seq<char>|
            text::all_white(lead) && line@ == #[trigger] (lead + start + rest) && is_failure(start)
                ==> r,
{
    let chars: Vec<char> = text::chars_of(line);
    let trimmed: String = text::string_of(text::skip_white(chars.as_slice()));
    let upper: String = trimmed.as_str().to_uppercase();
    proof {
        lemma_upper_start(trimmed@, upper@);
        assert forall|lead: Seq<char>, start: Seq<char>, rest: Seq<char>|
            text::all_white(lead) && line@ == #[trigger] (lead + start + rest) && is_failure(
                start,
            ) implies tells_failure(trimmed@, upper@) by {
            lemma_start_decides(trimmed@, upper@, lead, start, rest);
        }
    }
    is_failure_text(trimmed.as_str(), upper.as_str())
}

/// What the upper-case form of a text starts with, where the text starts with ASCII characters.
proof fn lemma_upper_start(s: Seq<char>, upper: Seq<char>)
    requires
        upper == uppercase(s),
        forall|n: int|
            0 <= n <= s.len() ==> upper == #[trigger] uppercase(s.take(n)) + uppercase(s.skip(n)),
        forall|n: int|
            0 <= n <= s.len() && is_ascii_text(s.take(n)) ==> upper == ascii_uppercase(
                #[trigger] s.take(n),
            ) + uppercase(s.skip(n)),
    ensures
        uppercase(Seq::empty()) == Seq::<char>::empty(),
        is_ascii_text(s) ==> upper == ascii_uppercase(s),
        starts_with_error(s) ==> "ERROR"@.is_prefix_of(upper),
{
    assert(s.skip(0) =~= s);
    assert(s.take(0) =~= Seq::<char>::empty());
    assert(upper == uppercase(s.take(0)) + uppercase(s.skip(0)));
    assert(uppercase(Seq::empty()).len() == 0);
    assert(uppercase(Seq::empty()) =~= Seq::<char>::empty());
    let n = s.len() as int;
    assert(s.take(n) =~= s);
    assert(s.skip(n) =~= Seq::<char>::empty());
    if is_ascii_text(s) {
        assert(upper =~= ascii_uppercase(s));
    }
    if starts_with_error(s) {
        let word = s.take(5);
        reveal_strlit("ERROR");
        assert forall|i: int| 0 <= i < word.len() implies (#[trigger] word[i]) as u32 <= 0x7f by {
            assert(ascii_uppercase(word)[i] == ascii_upper(word[i]));
        }
        assert(upper.take(5) =~= "ERROR"@);
    }
}

/// A failure told by what a line starts with is told by the line.
proof fn lemma_start_decides(
    trimmed: Seq<char>,
    upper: Seq<char>,
    lead: Seq<char>,
    start: Seq<char>,
    rest: Seq<char>,
)
    requires
        text::all_white(lead),
        trimmed == text::trim_start(lead + start + rest),
        is_failure(start),
        uppercase(Seq::empty()) == Seq::<char>::empty(),
        forall|n: int|
            0 <= n <= trimmed.len() ==> upper == #[trigger] uppercase(trimmed.take(n)) + uppercase(
                trimmed.skip(n),
            ),
    ensures
        tells_failure(trimmed, upper),
{
    let t = text::trim_start(start);
    if t.len() == 0 {
        assert(t =~= Seq::<char>::empty());
        lemma_empty_tells_nothing(t);
    } else {
        assert(lead + start + rest =~= lead + (start + rest));
        text::lemma_trim_start_lead(lead, start + rest);
        text::lemma_trim_start_rest(start, rest);
        let n = t.len() as int;
        assert(trimmed.take(n) =~= t);
        assert(trimmed.skip(n) =~= rest);
        assert(upper == uppercase(trimmed.take(n)) + uppercase(trimmed.skip(n)));
        law_more_text_hides_nothing(t, uppercase(t), rest, uppercase(rest));
    }
}

proof fn lemma_empty_tells_nothing(t: Seq<char>)
    requires
        t.len() == 0,
    ensures
        !tells_failure(t, Seq::empty()),
{
    lemma_marker_starts("FAIL"@);
    lemma_marker_starts("✗"@);
    lemma_marker_starts("×"@);
    lemma_marker_starts("●"@);
    lemma_marker_starts("Error:"@);
    lemma_marker_starts("error:"@);
    lemma_marker_starts("AssertionError"@);
    lemma_marker_starts("Expected:"@);
    lemma_marker_starts("Received:"@);
    lemma_marker_starts("- Expected"@);
    lemma_marker_starts("+ Received"@);
    lemma_marker_starts("at "@);
    reveal_strlit("ERROR");
}

proof fn lemma_contains_more(s: Seq<char>, p: Seq<char>, more: Seq<char>)
    ensures
        text::contains(s, p) ==> text::contains(s + more, p),
        p.is_prefix_of(s) ==> p.is_prefix_of(s + more),
{
    if text::contains(s, p) {
        let i = choose|i: int| text::occurs_at(s, p, i);
        assert((s + more).subrange(i, i + p.len()) =~= s.subrange(i, i + p.len()));
        assert(text::occurs_at(s + more, p, i));
    }
    if p.is_prefix_of(s) {
        assert((s + more).take(p.len() as int) =~= s.take(p.len() as int));
    }
}

/// Text that follows, in its own form and in upper case, hides no failure.
pub proof fn law_more_text_hides_nothing(
    trimmed: Seq<char>,
    upper: Seq<char>,
    more: Seq<char>,
    more_upper: Seq<char>,
)
    requires
        tells_failure(trimmed, upper),
    ensures
        tells_failure(trimmed + more, upper + more_upper),
{
    lemma_contains_more(trimmed, "FAIL"@, more);
    lemma_contains_more(trimmed, "✗"@, more);
    lemma_contains_more(trimmed, "×"@, more);
    lemma_contains_more(trimmed, "●"@, more);
    lemma_contains_more(trimmed, "Error:"@, more);
    lemma_contains_more(trimmed, "error:"@, more);
    lemma_contains_more(upper, "ERROR"@, more_upper);
    lemma_contains_more(trimmed, "AssertionError"@, more);
    lemma_contains_more(trimmed, "Expected:"@, more);
    lemma_contains_more(trimmed, "Received:"@, more);
    lemma_contains_more(trimmed, "- Expected"@, more);
    lemma_contains_more(trimmed, "+ Received"@, more);
    lemma_contains_more(trimmed, "at "@, more);
    lemma_contains_more(trimmed, ":"@, more);
}

/// White space in front of a line makes no difference to whether it tells of a failure.
pub proof fn law_indenting_changes_nothing(lead: Seq<char>, line: Seq<char>)
    requires
        text::all_white(lead),
    ensures
        is_failure(lead + line) == is_failure(line),
{
    text::lemma_trim_start_lead(lead, line);
}

/// What marks a line that tells of a failure, at its start.
pub open spec fn is_marker(s: Seq<char>) -> bool {
    ||| s == "FAIL"@
    ||| s == "✗"@
    ||| s == "×"@
    ||| s == "●"@
    ||| s == "Error:"@
    ||| s == "error:"@
}

/// What an assertion that failed prints.
pub open spec fn is_assertion_detail(s: Seq<char>) -> bool {
    ||| s == "AssertionError"@
    ||| s == "Expected:"@
    ||| s == "Received:"@
    ||| s == "- Expected"@
    ||| s == "+ Received"@
}

proof fn lemma_marker_starts(s: Seq<char>)
    ensures
        is_marker(s) ==> s.len() > 0 && !text::is_white(s[0]),
        is_assertion_detail(s) ==> s.len() > 0 && !text::is_white(s[0]),
        s == "at "@ ==> s.len() > 0 && !text::is_white(s[0]),
{
    reveal_strlit("FAIL");
    reveal_strlit("✗");
    reveal_strlit("×");
    reveal_strlit("●");
    reveal_strlit("Error:");
    reveal_strlit("error:");
    reveal_strlit("AssertionError");
    reveal_strlit("Expected:");
    reveal_strlit("Received:");
    reveal_strlit("- Expected");
    reveal_strlit("+ Received");
    reveal_strlit("at ");
}

proof fn lemma_trimmed(lead: Seq<char>, s: Seq<char>, rest: Seq<char>)
    requires
        text::all_white(lead),
        s.len() > 0,
        !text::is_white(s[0]),
    ensures
        text::trim_start(lead + s + rest) == s + rest,
        s.is_prefix_of(s + rest),
{
    assert(lead + s + rest =~= lead + (s + rest));
    text::lemma_trim_start_lead(lead, s + rest);
    assert((s + rest)[0] == s[0]);
    assert((s + rest).take(s.len() as int) =~= s);
}

/// A line that starts with a marker tells of a failure, however far it is indented.
pub proof fn law_marked_line_is_failure(lead: Seq<char>, marker: Seq<char>, rest: Seq<char>)
    requires
        text::all_white(lead),
        is_marker(marker),
    ensures
        is_failure(lead + marker + rest),
{
    lemma_marker_starts(marker);
    lemma_trimmed(lead, marker, rest);
}

/// A line of a stack trace, `at` some place with a colon in it, tells of a failure.
pub proof fn law_stack_trace_is_failure(lead: Seq<char>, place: Seq<char>)
    requires
        text::all_white(lead),
        text::contains(place, ":"@),
    ensures
        is_failure(lead + "at "@ + place),
{
    lemma_marker_starts("at "@);
    lemma_trimmed(lead, "at "@, place);
    let t = "at "@ + place;
    let i = choose|i: int| text::occurs_at(place, ":"@, i);
    let j = i + "at "@.len();
    assert(t.subrange(j, j + ":"@.len()) =~= place.subrange(i, i + ":"@.len()));
    assert(text::occurs_at(t, ":"@, j));
}

/// A line that says what an assertion expected or received tells of a failure.
pub proof fn law_assertion_detail_is_failure(line: Seq<char>, detail: Seq<char>)
    requires
        is_assertion_detail(detail),
        text::contains(line, detail),
    ensures
        is_failure(line),
{
    lemma_marker_starts(detail);
    lemma_contains_trimmed(line, detail);
}

proof fn lemma_contains_trimmed(s: Seq<char>, p: Seq<char>)
    requires
        p.len() > 0,
        !text::is_white(p[0]),
        text::contains(s, p),
    ensures
        text::contains(text::trim_start(s), p),
    decreases s.len(),
{
    if s.len() > 0 && text::is_white(s[0]) {
        let rest = s.drop_first();
        let i = choose|i: int| text::occurs_at(s, p, i);
        assert(s.subrange(i, i + p.len())[0] == s[i]);
        assert(rest.subrange(i - 1, i - 1 + p.len()) =~= s.subrange(i, i + p.len()));
        assert(text::occurs_at(rest, p, i - 1));
        lemma_contains_trimmed(rest, p);
    }
}

/// Nothing else tells of a failure: a line that does starts, behind its white space, with a
/// failure marker, with an error in whatever case or with a place in a stack trace, or holds what
/// an assertion prints.
pub proof fn law_nothing_else_is_failure(line: Seq<char>)
    requires
        is_failure(line),
    ensures
        ({
            let t = text::trim_start(line);
            ||| "FAIL"@.is_prefix_of(t) || "✗"@.is_prefix_of(t) || "×"@.is_prefix_of(t)
            ||| "●"@.is_prefix_of(t) || "Error:"@.is_prefix_of(t) || "error:"@.is_prefix_of(t)
            ||| "ERROR"@.is_prefix_of(uppercase(t))
            ||| "at "@.is_prefix_of(t) && t.contains(':')
            ||| text::contains(t, "AssertionError"@) || text::contains(t, "Expected:"@)
            ||| text::contains(t, "Received:"@) || text::contains(t, "- Expected"@)
            ||| text::contains(t, "+ Received"@)
        }),
{
    let t = text::trim_start(line);
    law_nothing_else_tells_failure(t, uppercase(t));
}

/// Nothing else in a text, or in its upper-case form, tells of a failure.
pub proof fn law_nothing_else_tells_failure(t: Seq<char>, upper: Seq<char>)
    requires
        tells_failure(t, upper),
    ensures
        ({
            ||| "FAIL"@.is_prefix_of(t) || "✗"@.is_prefix_of(t) || "×"@.is_prefix_of(t)
            ||| "●"@.is_prefix_of(t) || "Error:"@.is_prefix_of(t) || "error:"@.is_prefix_of(t)
            ||| "ERROR"@.is_prefix_of(upper)
            ||| "at "@.is_prefix_of(t) && t.contains(':')
            ||| text::contains(t, "AssertionError"@) || text::contains(t, "Expected:"@)
            ||| text::contains(t, "Received:"@) || text::contains(t, "- Expected"@)
            ||| text::contains(t, "+ Received"@)
        }),
{
    if text::contains(t, ":"@) {
        reveal_strlit(":");
        let i = choose|i: int| text::occurs_at(t, ":"@, i);
        assert(t.subrange(i, i + 1)[0] == t[i]);
        assert(":"@[0] == ':');
    }
}

/// Each failure marker, place in a stack trace and detail of an assertion tells of a failure,
/// however far the line is indented and whatever follows.
pub proof fn law_each_of_these_is_failure(lead: Seq<char>, a: Seq<char>, b: Seq<char>)
    requires
        text::all_white(lead),
    ensures
        is_failure(lead + "FAIL"@ + b),
        is_failure(lead + "✗"@ + b),
        is_failure(lead + "×"@ + b),
        is_failure(lead + "●"@ + b),
        is_failure(lead + "Error:"@ + b),
        is_failure(lead + "error:"@ + b),
        is_failure(lead + "at "@ + (a + ":"@ + b)),
        is_failure(a + "AssertionError"@ + b),
        is_failure(a + "Expected:"@ + b),
        is_failure(a + "Received:"@ + b),
        is_failure(a + "- Expected"@ + b),
        is_failure(a + "+ Received"@ + b),
{
    law_marked_line_is_failure(lead, "FAIL"@, b);
    law_marked_line_is_failure(lead, "✗"@, b);
    law_marked_line_is_failure(lead, "×"@, b);
    law_marked_line_is_failure(lead, "●"@, b);
    law_marked_line_is_failure(lead, "Error:"@, b);
    law_marked_line_is_failure(lead, "error:"@, b);
    lemma_made_of(a, ":"@, b);
    law_stack_trace_is_failure(lead, a + ":"@ + b);
    lemma_made_of(a, "AssertionError"@, b);
    law_assertion_detail_is_failure(a + "AssertionError"@ + b, "AssertionError"@);
    lemma_made_of(a, "Expected:"@, b);
    law_assertion_detail_is_failure(a + "Expected:"@ + b, "Expected:"@);
    lemma_made_of(a, "Received:"@, b);
    law_assertion_detail_is_failure(a + "Received:"@ + b, "Received:"@);
    lemma_made_of(a, "- Expected"@, b);
    law_assertion_detail_is_failure(a + "- Expected"@ + b, "- Expected"@);
    lemma_made_of(a, "+ Received"@, b);
    law_assertion_detail_is_failure(a + "+ Received"@ + b, "+ Received"@);
}

proof fn lemma_made_of(a: Seq<char>, p: Seq<char>, b: Seq<char>)
    ensures
        text::contains(a + p + b, p),
{
    text::law_contains_what_it_is_made_of(a + p + b, p);
}

/// A line whose upper-case form, behind its white space, starts with `ERROR` tells of a failure.
pub proof fn law_error_in_upper_case_is_failure(line: Seq<char>)
    requires
        "ERROR"@.is_prefix_of(uppercase(text::trim_start(line))),
    ensures
        is_failure(line),
{
}

/// The line of a passing test or file tells of no failure, unless it holds what an assertion
/// prints: a check mark or `PASS` starts no failure.
pub proof fn law_passing_line_is_no_failure(lead: Seq<char>, rest: Seq<char>, upper: Seq<char>)
    requires
        text::all_white(lead),
        !text::contains(rest, "AssertionError"@),
        !text::contains(rest, "Expected:"@),
        !text::contains(rest, "Received:"@),
        !text::contains(rest, "- Expected"@),
        !text::contains(rest, "+ Received"@),
        rest.len() > 0,
        rest[0] == '✓' || rest[0] == 'P',
        upper.len() > 0 ==> upper[0] != 'E',
    ensures
        text::trim_start(lead + rest) == rest,
        !tells_failure(rest, upper),
{
    text::lemma_trim_start_lead(lead, rest);
    reveal_strlit("FAIL");
    reveal_strlit("✗");
    reveal_strlit("×");
    reveal_strlit("●");
    reveal_strlit("Error:");
    reveal_strlit("error:");
    reveal_strlit("ERROR");
    reveal_strlit("at ");
    lemma_same_head("FAIL"@, rest);
    lemma_same_head("✗"@, rest);
    lemma_same_head("×"@, rest);
    lemma_same_head("●"@, rest);
    lemma_same_head("Error:"@, rest);
    lemma_same_head("error:"@, rest);
    lemma_same_head("at "@, rest);
    lemma_same_head("ERROR"@, upper);
}

proof fn lemma_same_head(p: Seq<char>, s: Seq<char>)
    requires
        p.len() > 0,
    ensures
        p.is_prefix_of(s) ==> s.len() > 0 && s[0] == p[0],
{
    if p.is_prefix_of(s) {
        assert(s.subrange(0, p.len() as int)[0] == s[0]);
    }
}

} // verus!
