//! Test counts in the lines that a test runner prints.

use crate::ansi;
use crate::text;
use vstd::prelude::*;
use vstd::slice::slice_subrange;

verus! {

/// What a line shows, without the white space at either end.
pub open spec fn shown(line: Seq<char>) -> Seq<char> {
    text::trim(ansi::stripped(line))
}

/// Where `t` has both an opening and a closing parenthesis, the last opening one comes first.
pub open spec fn parens_in_order(t: Seq<char>) -> bool {
    match (text::rfind(t, '('), text::rfind(t, ')')) {
        (Some(open), Some(close)) => open < close,
        _ => true,
    }
}

/// The text between the last opening and the last closing parenthesis.
pub open spec fn parenthesized(t: Seq<char>) -> Option<Seq<char>> {
    match (text::rfind(t, '('), text::rfind(t, ')')) {
        (Some(open), Some(close)) => Some(t.subrange(open + 1, close)),
        _ => None,
    }
}

/// The number that stands as the last word before the first `keyword`; 0 where there is none.
pub open spec fn count_before(t: Seq<char>, keyword: Seq<char>) -> nat {
    match text::find(t, keyword) {
        Some(i) => match text::last_word(t.take(i)) {
            Some(word) => match text::u32_value(word) {
                Some(n) => n as nat,
                None => 0,
            },
            None => 0,
        },
        None => 0,
    }
}

/// The tests that a summary counts as run: failed, passed and skipped together.
pub open spec fn completed_count(t: Seq<char>) -> nat {
    count_before(t, "failed"@) + count_before(t, "passed"@) + count_before(t, "skipped"@)
}

/// The total that a summary gives in parentheses at its end.
pub open spec fn summary_total(t: Seq<char>) -> Option<u32> {
    match parenthesized(t) {
        Some(inner) => text::u32_value(text::trim(inner)),
        None => None,
    }
}

/// A line whose parentheses are in order and, where it gives a total, whose counts add up to a
/// 32-bit number.
pub open spec fn summary_readable(line: Seq<char>) -> bool {
    let t = shown(line);
    &&& parens_in_order(t)
    &&& summary_total(t) is Some ==> completed_count(t) <= u32::MAX
}

/// The tests run so far and in total, as a summary line gives them.
pub open spec fn test_summary(line: Seq<char>) -> Option<(u32, u32)> {
    let t = shown(line);
    match summary_total(t) {
        Some(total) if completed_count(t) > 0 => Some((completed_count(t) as u32, total)),
        _ => None,
    }
}

/// A line that starts with a check mark.
pub open spec fn is_completed_line(t: Seq<char>) -> bool {
    "✓"@.is_prefix_of(t)
}

/// A line whose parentheses are in order, if it starts with a check mark.
pub open spec fn completed_file_readable(line: Seq<char>) -> bool {
    let t = shown(line);
    is_completed_line(t) ==> parens_in_order(t)
}

/// The number of tests in one finished file: the first word between the parentheses, where
/// they speak of tests.
pub open spec fn completed_file_tests(line: Seq<char>) -> Option<u32> {
    let t = shown(line);
    match parenthesized(t) {
        Some(inner) if is_completed_line(t) && text::contains(inner, "test"@) => {
            match text::first_word(inner) {
                Some(word) => text::u32_value(word),
                None => None,
            }
        },
        _ => None,
    }
}

/// The characters that a line shows, without the white space at either end.
fn shown_chars(line: &str) -> (r: Vec<char>)
    ensures
        r@ == shown(line@),
{
    let clean: String = ansi::strip_ansi_codes(line);
    let chars: Vec<char> = text::chars_of(clean.as_str());
    let trimmed: &[char] = text::strip_white(chars.as_slice());
    let mut out: Vec<char> = Vec::new();
    out.extend_from_slice(trimmed);
    assert(out@ =~= shown(line@));
    out
}

fn ordered(t: &[char]) -> (r: bool)
    ensures
        r == parens_in_order(t@),
{
    match (text::rfind_char(t, '('), text::rfind_char(t, ')')) {
        (Some(open), Some(close)) => open < close,
        _ => true,
    }
}

fn inner_text(t: &[char]) -> (r: Option<&[char]>)
    requires
        parens_in_order(t@),
    ensures
        r matches Some(inner) ==> parenthesized(t@) == Some(inner@),
        r is None ==> parenthesized(t@) is None,
{
    match (text::rfind_char(t, '('), text::rfind_char(t, ')')) {
        (Some(open), Some(close)) => Some(slice_subrange(t, open + 1, close)),
        _ => None,
    }
}

fn total_in(t: &[char]) -> (r: Option<u32>)
    requires
        parens_in_order(t@),
    ensures
        r == summary_total(t@),
{
    match inner_text(t) {
        Some(inner) => text::parse_u32(text::strip_white(inner)),
        None => None,
    }
}

fn number_before(t: &[char], keyword: &str) -> (r: u32)
    ensures
        r == count_before(t@, keyword@),
{
    match text::find_text(t, keyword) {
        Some(i) => {
            assert(t@.subrange(0, i as int) =~= t@.take(i as int));
            match text::word_last(slice_subrange(t, 0, i)) {
                Some(word) => match text::parse_u32(word) {
                    Some(n) => n,
                    None => 0,
                },
                None => 0,
            }
        },
        None => 0,
    }
}

fn completed_in(t: &[char]) -> (r: u64)
    ensures
        r == completed_count(t@),
{
    let failed: u32 = number_before(t, "failed");
    let passed: u32 = number_before(t, "passed");
    let skipped: u32 = number_before(t, "skipped");
    failed as u64 + passed as u64 + skipped as u64
}

/// Whether [`parse_test_summary`] can read the line.
pub fn can_parse_test_summary(line: &str) -> (r: bool)
    ensures
        r == summary_readable(line@),
{
    let t: Vec<char> = shown_chars(line);
    if !ordered(t.as_slice()) {
        return false;
    }
    match total_in(t.as_slice()) {
        Some(_) => completed_in(t.as_slice()) <= u32::MAX as u64,
        None => true,
    }
}

/// Reads a summary line such as `Tests 2 failed | 1915 passed | 70 skipped (1987)`: the tests
/// run so far, and their total.
pub fn parse_test_summary(line: &str) -> (r: Option<(u32, u32)>)
    requires
        summary_readable(line@),
    ensures
        r == test_summary(line@),
{
    let t: Vec<char> = shown_chars(line);
    match total_in(t.as_slice()) {
        Some(total) => {
            let completed: u64 = completed_in(t.as_slice());
            if completed > 0 {
                Some((completed as u32, total))
            } else {
                None
            }
        },
        None => None,
    }
}

/// Whether [`parse_completed_file_tests`] can read the line.
pub fn can_parse_completed_file_tests(line: &str) -> (r: bool)
    ensures
        r == completed_file_readable(line@),
{
    let t: Vec<char> = shown_chars(line);
    !text::starts_with(t.as_slice(), "✓") || ordered(t.as_slice())
}

/// Reads the number of tests in one finished file from a line such as
/// ` ✓  jsdom  src/test.ts (8 tests) 2ms`.
pub fn parse_completed_file_tests(line: &str) -> (r: Option<u32>)
    requires
        completed_file_readable(line@),
    ensures
        r == completed_file_tests(line@),
{
    let t: Vec<char> = shown_chars(line);
    if !text::starts_with(t.as_slice(), "✓") {
        return None;
    }
    match inner_text(t.as_slice()) {
        Some(inner) => {
            if !text::contains_text(inner, "test") {
                return None;
            }
            match text::word_first(inner) {
                Some(word) => text::parse_u32(word),
                None => None,
            }
        },
        None => None,
    }
}

/// A line is never both a summary and the line of a finished file.
pub proof fn law_summary_is_no_finished_file(line: Seq<char>)
    ensures
        test_summary(line) is Some ==> completed_file_tests(line) is None,
{
    if test_summary(line) is Some && completed_file_tests(line) is Some {
        let inner = parenthesized(shown(line))->0;
        reveal_strlit("test");
        let i = choose|i: int| text::occurs_at(inner, "test"@, i);
        assert(inner.subrange(i, i + 4)[0] == inner[i]);
        assert(inner.contains('t'));
        text::lemma_trim_keeps(inner, 't');
        let t = text::trim(inner);
        let d = text::unsigned_digits(t);
        let j = choose|j: int| 0 <= j < t.len() && t[j] == 't';
        let k = j - (t.len() - d.len());
        assert(d[k] == 't');
        assert(text::is_digit(d[k]));
    }
}

/// Colours make no difference to the counts.
pub proof fn law_colours_do_not_count(line: Seq<char>)
    ensures
        test_summary(ansi::stripped(line)) == test_summary(line),
        summary_readable(ansi::stripped(line)) == summary_readable(line),
        completed_file_tests(ansi::stripped(line)) == completed_file_tests(line),
        completed_file_readable(ansi::stripped(line)) == completed_file_readable(line),
{
    ansi::law_strip_twice(line);
}

/// A character that two texts lack is lacking in both together.
pub proof fn lemma_lacks(a: Seq<char>, b: Seq<char>, c: char)
    requires
        !a.contains(c),
        !b.contains(c),
    ensures
        !(a + b).contains(c),
{
    assert forall|i: int| 0 <= i < (a + b).len() implies (a + b)[i] != c by {
        if i < a.len() {
            assert((a + b)[i] == a[i]);
        } else {
            assert((a + b)[i] == b[i - a.len()]);
        }
    }
}

/// A numeral is made of digits, and reads back.
pub proof fn lemma_digits(n: u32)
    ensures
        ({
            let d = text::decimal(n as nat);
            &&& text::all_digits(d)
            &&& text::u32_value(d) == Some(n)
            &&& forall|i: int| 0 <= i < d.len() ==> !text::is_white(#[trigger] d[i])
            &&& forall|c: char| !text::is_digit(c) ==> !#[trigger] d.contains(c)
        }),
{
    text::law_decimal_reads_back(n as nat);
    let d = text::decimal(n as nat);
    assert forall|i: int| 0 <= i < d.len() implies !text::is_white(#[trigger] d[i]) by {
        assert(text::is_digit(d[i]));
    }
    assert forall|c: char| !text::is_digit(c) implies !#[trigger] d.contains(c) by {
        assert forall|i: int| 0 <= i < d.len() implies d[i] != c by {
            assert(text::is_digit(d[i]));
        }
    }
}

/// White space holds nothing else.
pub proof fn lemma_white_lacks(s: Seq<char>, c: char)
    requires
        text::all_white(s),
        !text::is_white(c),
    ensures
        !s.contains(c),
{
    assert forall|i: int| 0 <= i < s.len() implies s[i] != c by {
        assert(text::is_white(s[i]));
    }
}

/// The line of a finished file gives its number of tests: a check mark, whatever names the file,
/// and the number with its unit in parentheses, with no others behind.
pub proof fn law_finished_file_is_read(
    lead: Seq<char>,
    name: Seq<char>,
    n: u32,
    unit: Seq<char>,
    trail: Seq<char>,
)
    requires
        text::all_white(lead),
        !name.contains(ansi::ESC),
        text::contains(unit, "test"@),
        !unit.contains(ansi::ESC) && !unit.contains('(') && !unit.contains(')'),
        !trail.contains(ansi::ESC) && !trail.contains('(') && !trail.contains(')'),
    ensures
        ({
            let line = lead + ("✓"@ + name + seq!['('] + text::decimal(n as nat) + seq![' ']
                + unit + seq![')']) + trail;
            &&& completed_file_readable(line)
            &&& completed_file_tests(line) == Some(n)
        }),
{
    let esc = ansi::ESC;
    let mark = "✓"@;
    reveal_strlit("✓");
    assert(mark =~= seq!['✓']);
    let d = text::decimal(n as nat);
    lemma_digits(n);
    let inner = d + seq![' '] + unit;
    let body = mark + name + seq!['('] + d + seq![' '] + unit + seq![')'];
    let line = lead + body + trail;
    lemma_lacks(mark, name, esc);
    lemma_lacks(mark + name, seq!['('], esc);
    lemma_lacks(mark + name + seq!['('], d, esc);
    lemma_lacks(mark + name + seq!['('] + d, seq![' '], esc);
    lemma_lacks(mark + name + seq!['('] + d + seq![' '], unit, esc);
    lemma_lacks(mark + name + seq!['('] + d + seq![' '] + unit, seq![')'], esc);
    lemma_white_lacks(lead, esc);
    lemma_lacks(lead, body, esc);
    lemma_lacks(lead + body, trail, esc);
    ansi::law_plain_text_stays(line, Seq::empty());
    assert(body[0] == '✓');
    assert(body.last() == ')');
    text::lemma_trim_between(lead, body, trail);
    let rest = text::trim_end(trail);
    text::lemma_trim_end_prefix(trail);
    let t = body + rest;
    assert(shown(line) == t);
    assert(mark.is_prefix_of(t)) by {
        assert(t.take(1) =~= mark);
    }
    assert forall|c: char| !trail.contains(c) implies !#[trigger] rest.contains(c) by {
        assert forall|i: int| 0 <= i < rest.len() implies rest[i] != c by {
            assert(rest[i] == trail[i]);
        }
    }
    let head = mark + name;
    assert(t =~= head.push('(') + (inner + seq![')'] + rest));
    assert(t =~= (head.push('(') + inner).push(')') + rest);
    lemma_lacks(d, seq![' '], '(');
    lemma_lacks(d + seq![' '], unit, '(');
    lemma_lacks(inner, seq![')'], '(');
    lemma_lacks(inner + seq![')'], rest, '(');
    text::lemma_rfind(head, '(', inner + seq![')'] + rest);
    text::lemma_rfind(head.push('(') + inner, ')', rest);
    assert(t.subrange(head.len() as int + 1, (head.len() + 1 + inner.len()) as int) =~= inner);
    let i = choose|i: int| text::occurs_at(unit, "test"@, i);
    let j = i + d.len() + 1;
    assert(inner.subrange(j, j + "test"@.len()) =~= unit.subrange(i, i + "test"@.len()));
    assert(text::occurs_at(inner, "test"@, j));
    text::lemma_first_word(d, seq![' '] + unit);
    assert(inner =~= d + (seq![' '] + unit));
}

/// What a line shows is what its text, without escape sequences, holds between white space.
pub proof fn law_line_shows_its_middle(
    line: Seq<char>,
    lead: Seq<char>,
    middle: Seq<char>,
    trail: Seq<char>,
)
    requires
        ansi::stripped(line) == lead + middle + trail,
        text::all_white(lead),
        text::all_white(trail),
        middle.len() > 0 ==> !text::is_white(middle[0]) && !text::is_white(middle.last()),
    ensures
        shown(line) == middle,
{
    text::law_trimming_leaves_the_middle(lead, middle, trail);
}

/// The last parentheses are those that count: the last opening one, and the last closing one
/// behind it.
pub proof fn law_last_parentheses_count(a: Seq<char>, inner: Seq<char>, b: Seq<char>)
    requires
        !inner.contains('('),
        !b.contains('('),
        !b.contains(')'),
    ensures
        parens_in_order(a + "("@ + inner + ")"@ + b),
        parenthesized(a + "("@ + inner + ")"@ + b) == Some(inner),
{
    reveal_strlit("(");
    reveal_strlit(")");
    let t = a + "("@ + inner + ")"@ + b;
    let rest = inner + seq![')'] + b;
    assert(t =~= a.push('(') + rest);
    assert(t =~= (a.push('(') + inner).push(')') + b);
    lemma_lacks(inner, seq![')'], '(');
    lemma_lacks(inner + seq![')'], b, '(');
    text::lemma_rfind(a, '(', rest);
    text::lemma_rfind(a.push('(') + inner, ')', b);
    assert(t.subrange(a.len() as int + 1, (a.len() + 1 + inner.len()) as int) =~= inner);
}

/// Where one kind of parenthesis is missing there is nothing between parentheses, and nothing out
/// of order.
pub proof fn law_one_parenthesis_is_none(t: Seq<char>)
    requires
        !t.contains('(') || !t.contains(')'),
    ensures
        parens_in_order(t),
        parenthesized(t) is None,
        summary_total(t) is None,
{
}

/// An opening parenthesis behind the last closing one is out of order.
pub proof fn law_opened_behind_is_out_of_order(a: Seq<char>, b: Seq<char>)
    requires
        a.contains(')'),
        !b.contains(')'),
        !b.contains('('),
    ensures
        !parens_in_order(a + "("@ + b),
{
    reveal_strlit("(");
    let t = a + "("@ + b;
    let i = choose|i: int| 0 <= i < a.len() && a[i] == ')';
    assert(t[i] == ')');
    assert(t =~= a.push('(') + b);
    text::lemma_rfind(a, '(', b);
    lemma_rfind_is_place(t, ')');
    let k = text::rfind(t, ')')->0;
    if k > a.len() {
        assert(t[k] == b[k - a.len() - 1]);
    }
}

proof fn lemma_rfind_is_place(t: Seq<char>, c: char)
    requires
        t.contains(c),
    ensures
        text::rfind(t, c) is Some,
        0 <= text::rfind(t, c)->0 < t.len(),
        t[text::rfind(t, c)->0] == c,
    decreases t.len(),
{
    let front = t.drop_last();
    if t.last() == c {
        assert(t =~= front.push(c) + Seq::<char>::empty());
        text::lemma_rfind(front, c, Seq::empty());
    } else {
        let i = choose|i: int| 0 <= i < t.len() && t[i] == c;
        assert(front[i] == c);
        lemma_rfind_is_place(front, c);
        let k = lemma_last_of(t, c);
        let (a, b) = (t.take(k), t.skip(k + 1));
        assert(t =~= a.push(c) + b);
        assert(!b.contains(c)) by {
            assert forall|j: int| 0 <= j < b.len() implies b[j] != c by {
                assert(b[j] == t[k + 1 + j]);
            }
        }
        text::lemma_rfind(a, c, b);
    }
}

proof fn lemma_last_of(t: Seq<char>, c: char) -> (k: int)
    requires
        t.contains(c),
    ensures
        0 <= k < t.len(),
        t[k] == c,
        forall|j: int| k < j < t.len() ==> t[j] != c,
    decreases t.len(),
{
    if t.last() == c {
        t.len() - 1
    } else {
        let front = t.drop_last();
        let i = choose|i: int| 0 <= i < t.len() && t[i] == c;
        assert(front[i] == c);
        let k = lemma_last_of(front, c);
        assert forall|j: int| k < j < t.len() implies t[j] != c by {
            if j < front.len() {
                assert(t[j] == front[j]);
            }
        }
        k
    }
}

/// The total of a summary is the number in its last parentheses, between white space or not; where
/// anything else stands there, there is none.
pub proof fn law_total_stands_in_parentheses(
    a: Seq<char>,
    lead: Seq<char>,
    number: Seq<char>,
    trail: Seq<char>,
    b: Seq<char>,
)
    requires
        text::all_white(lead),
        text::all_white(trail),
        number.len() > 0 ==> !text::is_white(number[0]) && !text::is_white(number.last()),
        !number.contains('('),
        !b.contains('('),
        !b.contains(')'),
    ensures
        summary_total(a + "("@ + (lead + number + trail) + ")"@ + b) == text::u32_value(number),
{
    let inner = lead + number + trail;
    lemma_white_lacks(lead, '(');
    lemma_white_lacks(trail, '(');
    lemma_lacks(lead, number, '(');
    lemma_lacks(lead + number, trail, '(');
    law_last_parentheses_count(a, inner, b);
    text::law_trimming_leaves_the_middle(lead, number, trail);
}

/// A count is the word that stands last before the first place of the keyword, if that word is a
/// number.
pub proof fn law_count_stands_before_the_keyword(
    x: Seq<char>,
    word: Seq<char>,
    w: Seq<char>,
    keyword: Seq<char>,
    y: Seq<char>,
)
    requires
        x.len() > 0 ==> text::is_white(x.last()),
        word.len() > 0,
        forall|i: int| 0 <= i < word.len() ==> !text::is_white(#[trigger] word[i]),
        text::all_white(w),
        forall|i: int|
            0 <= i < (x + word + w).len() ==> #[trigger] (x + word + w + keyword + y).subrange(
                i,
                i + keyword.len(),
            ) != keyword,
    ensures
        count_before(x + word + w + keyword + y, keyword) == match text::u32_value(word) {
            Some(n) => n as nat,
            None => 0,
        },
{
    let head = x + word + w;
    text::law_first_place_is_found(head, keyword, y);
    assert((head + keyword + y).take(head.len() as int) =~= head);
    text::lemma_last_word(x, word, w);
}

/// A keyword without a word before it, or that does not stand in the text, counts for nothing.
pub proof fn law_nothing_before_the_keyword_counts_for_nothing(
    w: Seq<char>,
    keyword: Seq<char>,
    y: Seq<char>,
)
    requires
        text::all_white(w),
        forall|i: int|
            0 <= i < w.len() ==> #[trigger] (w + keyword + y).subrange(i, i + keyword.len())
                != keyword,
    ensures
        count_before(w + keyword + y, keyword) == 0,
        (forall|a: Seq<char>, b: Seq<char>| y != #[trigger] (a + keyword + b)) ==> count_before(
            y,
            keyword,
        ) == 0,
{
    text::law_first_place_is_found(w, keyword, y);
    assert((w + keyword + y).take(w.len() as int) =~= w);
    text::lemma_trim_end_prefix(w);
}

/// The tests of a summary are those that failed, passed and were skipped, all together. There is a
/// summary just where there is a total and that number is not zero.
pub proof fn law_summary_adds_up(line: Seq<char>, failed: u32, passed: u32, skipped: u32)
    requires
        count_before(shown(line), "failed"@) == failed,
        count_before(shown(line), "passed"@) == passed,
        count_before(shown(line), "skipped"@) == skipped,
        failed + passed + skipped <= u32::MAX,
    ensures
        test_summary(line) is Some <==> summary_total(shown(line)) is Some && failed + passed
            + skipped > 0,
        test_summary(line) matches Some((completed, total)) ==> completed == failed + passed
            + skipped && summary_total(shown(line)) == Some(total),
        completed_count(shown(line)) == failed + passed + skipped,
        parens_in_order(shown(line)) ==> summary_readable(line),
{
}

/// A line without parentheses in order cannot be read; one whose counts are too many cannot,
/// where it gives a total.
pub proof fn law_what_cannot_be_read(line: Seq<char>)
    ensures
        summary_readable(line) ==> parens_in_order(shown(line)),
        parens_in_order(shown(line)) && summary_total(shown(line)) is None ==> summary_readable(
            line,
        ),
        summary_total(shown(line)) is Some && completed_count(shown(line)) > u32::MAX
            ==> !summary_readable(line),
        completed_file_readable(line) <==> (shown(line).len() > 0 && shown(line)[0] == '✓'
            ==> parens_in_order(shown(line))),
{
    lemma_check_mark(shown(line));
}

proof fn lemma_check_mark(t: Seq<char>)
    ensures
        is_completed_line(t) <==> t.len() > 0 && t[0] == '✓',
{
    reveal_strlit("✓");
    if is_completed_line(t) {
        assert(t.subrange(0, 1)[0] == "✓"@[0]);
    }
    if t.len() > 0 && t[0] == '✓' {
        assert(t.take(1) =~= "✓"@);
    }
}

/// The number of tests in a finished file is the first word in its last parentheses, if they speak
/// of tests and that word is a number.
pub proof fn law_finished_file_counts_its_tests(
    line: Seq<char>,
    a: Seq<char>,
    lead: Seq<char>,
    word: Seq<char>,
    rest: Seq<char>,
    b: Seq<char>,
)
    requires
        shown(line) == "✓"@ + a + "("@ + (lead + word + rest) + ")"@ + b,
        text::all_white(lead),
        word.len() > 0,
        forall|i: int| 0 <= i < word.len() ==> !text::is_white(#[trigger] word[i]),
        rest.len() > 0 ==> text::is_white(rest[0]),
        !(lead + word + rest).contains('('),
        !b.contains('('),
        !b.contains(')'),
    ensures
        completed_file_readable(line),
        completed_file_tests(line) == if text::contains(lead + word + rest, "test"@) {
            text::u32_value(word)
        } else {
            None
        },
{
    let t = shown(line);
    law_last_parentheses_count("✓"@ + a, lead + word + rest, b);
    text::law_first_word_is_read(lead, word, rest);
    assert(t.take("✓"@.len() as int) =~= "✓"@);
    assert(is_completed_line(t));
}

/// Nothing else is a finished file: without a check mark at its start, without parentheses, or
/// without a word about tests in them, a line counts no tests.
pub proof fn law_nothing_else_is_a_finished_file(line: Seq<char>)
    requires
        completed_file_tests(line) is Some,
    ensures
        shown(line).len() > 0 && shown(line)[0] == '✓',
        shown(line).contains('('),
        shown(line).contains(')'),
        text::contains(shown(line), "test"@) || !parens_in_order(shown(line)),
{
    let t = shown(line);
    lemma_check_mark(t);
    lemma_rfind_is_place(t, '(');
    lemma_rfind_is_place(t, ')');
    let (open, close) = (text::rfind(t, '(')->0, text::rfind(t, ')')->0);
    let inner = parenthesized(t)->0;
    if parens_in_order(t) {
        let i = choose|i: int| text::occurs_at(inner, "test"@, i);
        let j = open + 1 + i;
        assert(t.subrange(j, j + "test"@.len()) =~= inner.subrange(i, i + "test"@.len()));
        assert(text::occurs_at(t, "test"@, j));
    }
}

} // verus!
