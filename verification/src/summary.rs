//! Summary lines as test runners print them.

use crate::ansi;
use crate::counts;
use crate::text;
use vstd::prelude::*;

verus! {

/// What a summary says of one kind of tests: how many of them failed, passed or were skipped.
pub struct Part {
    pub count: u32,
    pub keyword: Seq<char>,
}

/// A word for a kind of tests.
pub open spec fn is_keyword(word: Seq<char>) -> bool {
    word == "failed"@ || word == "passed"@ || word == "skipped"@
}

/// What a summary says, of each kind of tests at most once and in whatever order.
pub open spec fn are_parts(parts: Seq<Part>) -> bool {
    &&& forall|i: int| 0 <= i < parts.len() ==> is_keyword(#[trigger] parts[i].keyword)
    &&& forall|i: int, j: int|
        0 <= i < j < parts.len() ==> #[trigger] parts[i].keyword != #[trigger] parts[j].keyword
}

/// One part as it is printed.
pub open spec fn part_text(part: Part) -> Seq<char> {
    text::decimal(part.count as nat) + " "@ + part.keyword
}

/// All parts as they are printed.
pub open spec fn parts_text(parts: Seq<Part>) -> Seq<char>
    decreases parts.len(),
{
    if parts.len() == 0 {
        Seq::empty()
    } else if parts.len() == 1 {
        part_text(parts[0])
    } else {
        parts_text(parts.drop_last()) + " | "@ + part_text(parts.last())
    }
}

/// A summary as it is printed, such as `Tests 2 failed | 1915 passed | 70 skipped (1987)`.
pub open spec fn summary_text(parts: Seq<Part>, total: u32) -> Seq<char> {
    "Tests "@ + parts_text(parts) + " ("@ + text::decimal(total as nat) + ")"@
}

/// What the parts say of one kind of tests; 0 where they say nothing of it.
pub open spec fn count_of(parts: Seq<Part>, keyword: Seq<char>) -> nat
    decreases parts.len(),
{
    if parts.len() == 0 {
        0
    } else if parts.last().keyword == keyword {
        parts.last().count as nat
    } else {
        count_of(parts.drop_last(), keyword)
    }
}

/// The tests that the parts count together.
pub open spec fn counted(parts: Seq<Part>) -> nat {
    count_of(parts, "failed"@) + count_of(parts, "passed"@) + count_of(parts, "skipped"@)
}

/// `a` is nowhere followed by `b`.
spec fn lacks_pair(s: Seq<char>, a: char, b: char) -> bool {
    forall|i: int| 0 <= i < s.len() - 1 ==> (#[trigger] s[i] != a || s[i + 1] != b)
}

proof fn lemma_join(s: Seq<char>, t: Seq<char>, a: char, b: char)
    requires
        lacks_pair(s, a, b),
        lacks_pair(t, a, b),
        t.len() > 0 ==> t[0] != b,
    ensures
        lacks_pair(s + t, a, b),
{
    let u = s + t;
    assert forall|i: int| 0 <= i < u.len() - 1 implies (#[trigger] u[i] != a || u[i + 1] != b) by {
        if i + 1 < s.len() {
            assert(u[i] == s[i] && u[i + 1] == s[i + 1]);
        } else if i + 1 == s.len() {
            assert(u[i + 1] == t[0]);
        } else {
            assert(u[i] == t[i - s.len()] && u[i + 1] == t[i - s.len() + 1]);
        }
    }
}

/// A pattern is found where it stands, if its first two characters stand nowhere before.
proof fn lemma_found(before: Seq<char>, p: Seq<char>, after: Seq<char>)
    requires
        p.len() >= 2,
        p[0] != p[1],
        lacks_pair(before, p[0], p[1]),
    ensures
        text::find(before + p + after, p) == Some(before.len() as int),
{
    let s = before + p + after;
    let i = before.len() as int;
    assert(s.subrange(i, i + p.len()) =~= p);
    assert forall|j: int| j < i implies !text::occurs_at(s, p, j) by {
        if text::occurs_at(s, p, j) {
            assert(s.subrange(j, j + p.len())[0] == s[j]);
            assert(s.subrange(j, j + p.len())[1] == s[j + 1]);
            assert(s[j] == before[j]);
            if j + 1 < i {
                assert(s[j + 1] == before[j + 1]);
            } else {
                assert(s[j + 1] == p[0]);
            }
        }
    }
    text::lemma_find_is(s, p, i);
}

proof fn lemma_absent(s: Seq<char>, p: Seq<char>)
    requires
        p.len() >= 2,
        lacks_pair(s, p[0], p[1]),
    ensures
        text::find(s, p) is None,
{
    if text::contains(s, p) {
        let j = choose|j: int| text::occurs_at(s, p, j);
        assert(s.subrange(j, j + p.len())[0] == s[j]);
        assert(s.subrange(j, j + p.len())[1] == s[j + 1]);
    }
}

proof fn lemma_literals()
    ensures
        " "@ == seq![' '],
        " | "@ == seq![' ', '|', ' '],
        " ("@ == seq![' ', '('],
        ")"@ == seq![')'],
        "Tests "@ == seq!['T', 'e', 's', 't', 's', ' '],
        "failed"@ == seq!['f', 'a', 'i', 'l', 'e', 'd'],
        "passed"@ == seq!['p', 'a', 's', 's', 'e', 'd'],
        "skipped"@ == seq!['s', 'k', 'i', 'p', 'p', 'e', 'd'],
{
    reveal_strlit(" ");
    reveal_strlit(" | ");
    reveal_strlit(" (");
    reveal_strlit(")");
    reveal_strlit("Tests ");
    reveal_strlit("failed");
    reveal_strlit("passed");
    reveal_strlit("skipped");
    assert(" "@ =~= seq![' ']);
    assert(" | "@ =~= seq![' ', '|', ' ']);
    assert(" ("@ =~= seq![' ', '(']);
    assert(")"@ =~= seq![')']);
    assert("Tests "@ =~= seq!['T', 'e', 's', 't', 's', ' ']);
    assert("failed"@ =~= seq!['f', 'a', 'i', 'l', 'e', 'd']);
    assert("passed"@ =~= seq!['p', 'a', 's', 's', 'e', 'd']);
    assert("skipped"@ =~= seq!['s', 'k', 'i', 'p', 'p', 'e', 'd']);
}

/// What a keyword starts with stands in no other keyword.
proof fn lemma_keyword(k: Seq<char>, other: Seq<char>)
    requires
        is_keyword(k),
        is_keyword(other),
    ensures
        k.len() >= 2,
        k[0] != k[1],
        k[0] == 'f' || k[0] == 'p' || k[0] == 's',
        k[1] == 'a' || k[1] == 'k',
        !k.contains(ansi::ESC),
        other.len() > 0 && other[0] != k[1],
        other != k ==> lacks_pair(other, k[0], k[1]),
{
    lemma_literals();
}

proof fn lemma_digits_lack(n: u32, a: char, b: char)
    requires
        !text::is_digit(a),
    ensures
        lacks_pair(text::decimal(n as nat), a, b),
        text::decimal(n as nat).len() > 0,
        text::is_digit(text::decimal(n as nat)[0]),
{
    counts::lemma_digits(n);
    let d = text::decimal(n as nat);
    assert forall|i: int| 0 <= i < d.len() - 1 implies (#[trigger] d[i] != a || d[i + 1] != b) by {
        assert(text::is_digit(d[i]));
    }
}

proof fn lemma_part_lacks(part: Part, k: Seq<char>)
    requires
        is_keyword(k),
        is_keyword(part.keyword),
        part.keyword != k,
    ensures
        lacks_pair(part_text(part), k[0], k[1]),
        part_text(part).len() > 0 && part_text(part)[0] != k[1],
{
    lemma_literals();
    lemma_keyword(k, part.keyword);
    lemma_digits_lack(part.count, k[0], k[1]);
    let d = text::decimal(part.count as nat);
    lemma_join(d, " "@, k[0], k[1]);
    lemma_join(d + " "@, part.keyword, k[0], k[1]);
    assert(part_text(part)[0] == d[0]);
}

proof fn lemma_parts_lack(parts: Seq<Part>, k: Seq<char>)
    requires
        is_keyword(k),
        forall|i: int|
            0 <= i < parts.len() ==> is_keyword(#[trigger] parts[i].keyword) && parts[i].keyword
                != k,
    ensures
        lacks_pair(parts_text(parts), k[0], k[1]),
        parts_text(parts).len() > 0 ==> parts_text(parts)[0] != k[1],
    decreases parts.len(),
{
    if parts.len() > 0 {
        let rest = parts.drop_last();
        assert(is_keyword(parts[parts.len() - 1].keyword));
        lemma_part_lacks(parts.last(), k);
        if parts.len() > 1 {
            assert forall|i: int| 0 <= i < rest.len() implies is_keyword(
                #[trigger] rest[i].keyword,
            ) && rest[i].keyword != k by {
                assert(rest[i] == parts[i]);
            }
            lemma_parts_lack(rest, k);
            lemma_literals();
            lemma_keyword(k, k);
            lemma_join(parts_text(rest), " | "@, k[0], k[1]);
            lemma_join(parts_text(rest) + " | "@, part_text(parts.last()), k[0], k[1]);
            if parts_text(rest).len() > 0 {
                assert(parts_text(parts)[0] == parts_text(rest)[0]);
            } else {
                assert(parts_text(parts)[0] == " | "@[0]);
            }
        }
    }
}

/// What is printed in front of the part at `i`.
spec fn in_front(parts: Seq<Part>, i: int) -> Seq<char> {
    if i == 0 {
        "Tests "@
    } else {
        "Tests "@ + parts_text(parts.take(i)) + " | "@
    }
}

proof fn lemma_part_at(parts: Seq<Part>, i: int) -> (rest: Seq<char>)
    requires
        0 <= i < parts.len(),
    ensures
        "Tests "@ + parts_text(parts) == in_front(parts, i) + part_text(parts[i]) + rest,
    decreases parts.len(),
{
    let n = parts.len() as int;
    let before = parts.drop_last();
    if i == n - 1 {
        assert(parts.take(i) =~= before);
        let rest = Seq::<char>::empty();
        assert("Tests "@ + parts_text(parts) =~= in_front(parts, i) + part_text(parts[i]) + rest);
        rest
    } else {
        let rest = lemma_part_at(before, i);
        let more = rest + " | "@ + part_text(parts.last());
        assert(before.take(i) =~= parts.take(i));
        assert("Tests "@ + parts_text(parts) =~= ("Tests "@ + parts_text(before)) + " | "@
            + part_text(parts.last()));
        assert("Tests "@ + parts_text(parts) =~= in_front(parts, i) + part_text(parts[i]) + more);
        more
    }
}

proof fn lemma_count_of(parts: Seq<Part>, i: int)
    requires
        are_parts(parts),
        0 <= i < parts.len(),
    ensures
        count_of(parts, parts[i].keyword) == parts[i].count,
    decreases parts.len(),
{
    if i < parts.len() - 1 {
        let rest = parts.drop_last();
        assert(parts[i].keyword != parts[parts.len() - 1].keyword);
        assert forall|a: int| 0 <= a < rest.len() implies is_keyword(#[trigger] rest[a].keyword) by {
            assert(rest[a] == parts[a]);
        }
        assert forall|a: int, b: int| 0 <= a < b < rest.len() implies #[trigger] rest[a].keyword
            != #[trigger] rest[b].keyword by {
            assert(rest[a] == parts[a] && rest[b] == parts[b]);
        }
        lemma_count_of(rest, i);
    }
}

proof fn lemma_count_of_none(parts: Seq<Part>, k: Seq<char>)
    requires
        forall|i: int| 0 <= i < parts.len() ==> #[trigger] parts[i].keyword != k,
    ensures
        count_of(parts, k) == 0,
    decreases parts.len(),
{
    if parts.len() > 0 {
        let rest = parts.drop_last();
        assert(parts[parts.len() - 1].keyword != k);
        assert forall|i: int| 0 <= i < rest.len() implies #[trigger] rest[i].keyword != k by {
            assert(rest[i] == parts[i]);
        }
        lemma_count_of_none(rest, k);
    }
}

/// The count of a kind of tests is read where it stands.
proof fn lemma_counted_at(parts: Seq<Part>, total: u32, i: int)
    requires
        are_parts(parts),
        0 <= i < parts.len(),
    ensures
        counts::count_before(summary_text(parts, total), parts[i].keyword) == parts[i].count,
{
    let k = parts[i].keyword;
    let d = text::decimal(parts[i].count as nat);
    let rest = lemma_part_at(parts, i);
    let front = in_front(parts, i);
    let head = front + d + " "@;
    let after = rest + " ("@ + text::decimal(total as nat) + ")"@;
    let t = summary_text(parts, total);
    assert(t =~= head + k + after);
    lemma_literals();
    lemma_keyword(k, k);
    lemma_digits_lack(parts[i].count, k[0], k[1]);
    assert(lacks_pair("Tests "@, k[0], k[1]));
    if i > 0 {
        let before = parts.take(i);
        assert forall|j: int| 0 <= j < before.len() implies is_keyword(
            #[trigger] before[j].keyword,
        ) && before[j].keyword != k by {
            assert(before[j] == parts[j]);
            assert(parts[j].keyword != parts[i].keyword);
        }
        lemma_parts_lack(before, k);
        lemma_join("Tests "@, parts_text(before), k[0], k[1]);
        lemma_join("Tests "@ + parts_text(before), " | "@, k[0], k[1]);
    }
    lemma_join(front, d, k[0], k[1]);
    lemma_join(front + d, " "@, k[0], k[1]);
    lemma_found(head, k, after);
    assert(t.take(head.len() as int) =~= head);
    counts::lemma_digits(parts[i].count);
    assert(front.last() == ' ');
    text::lemma_last_word(front, d, " "@);
}

/// Of each kind of tests, a summary gives the count that its parts say.
proof fn lemma_counts(parts: Seq<Part>, total: u32, k: Seq<char>)
    requires
        are_parts(parts),
        is_keyword(k),
    ensures
        counts::count_before(summary_text(parts, total), k) == count_of(parts, k),
{
    if exists|i: int| 0 <= i < parts.len() && #[trigger] parts[i].keyword == k {
        let i = choose|i: int| 0 <= i < parts.len() && #[trigger] parts[i].keyword == k;
        lemma_counted_at(parts, total, i);
        lemma_count_of(parts, i);
    } else {
        assert forall|i: int| 0 <= i < parts.len() implies #[trigger] parts[i].keyword != k by {}
        lemma_count_of_none(parts, k);
        lemma_parts_lack(parts, k);
        lemma_literals();
        lemma_keyword(k, k);
        lemma_digits_lack(total, k[0], k[1]);
        let d = text::decimal(total as nat);
        assert(lacks_pair("Tests "@, k[0], k[1]));
        lemma_join("Tests "@, parts_text(parts), k[0], k[1]);
        lemma_join("Tests "@ + parts_text(parts), " ("@, k[0], k[1]);
        lemma_join("Tests "@ + parts_text(parts) + " ("@, d, k[0], k[1]);
        lemma_join("Tests "@ + parts_text(parts) + " ("@ + d, ")"@, k[0], k[1]);
        lemma_absent(summary_text(parts, total), k);
    }
}

proof fn lemma_total(parts: Seq<Part>, total: u32)
    ensures
        counts::parens_in_order(summary_text(parts, total)),
        counts::summary_total(summary_text(parts, total)) == Some(total),
{
    let t = summary_text(parts, total);
    let d = text::decimal(total as nat);
    lemma_literals();
    counts::lemma_digits(total);
    let head = "Tests "@ + parts_text(parts) + seq![' '];
    assert(t =~= head.push('(') + (d + seq![')']));
    assert(t =~= (head.push('(') + d).push(')') + Seq::<char>::empty());
    counts::lemma_lacks(d, seq![')'], '(');
    text::lemma_rfind(head, '(', d + seq![')']);
    text::lemma_rfind(head.push('(') + d, ')', Seq::empty());
    assert(t.subrange(head.len() as int + 1, (head.len() + 1 + d.len()) as int) =~= d);
    assert(!text::is_white(d[0]) && !text::is_white(d[d.len() - 1]));
    text::lemma_trim_between(Seq::empty(), d, Seq::empty());
    assert(Seq::<char>::empty() + d + Seq::<char>::empty() =~= d);
}

proof fn lemma_parts_plain(parts: Seq<Part>)
    requires
        forall|i: int| 0 <= i < parts.len() ==> is_keyword(#[trigger] parts[i].keyword),
    ensures
        !parts_text(parts).contains(ansi::ESC),
    decreases parts.len(),
{
    let esc = ansi::ESC;
    if parts.len() > 0 {
        let rest = parts.drop_last();
        let last = parts.last();
        let d = text::decimal(last.count as nat);
        assert(is_keyword(parts[parts.len() - 1].keyword));
        assert forall|i: int| 0 <= i < rest.len() implies is_keyword(#[trigger] rest[i].keyword) by {
            assert(rest[i] == parts[i]);
        }
        lemma_parts_plain(rest);
        lemma_literals();
        lemma_keyword(last.keyword, last.keyword);
        counts::lemma_digits(last.count);
        counts::lemma_lacks(d, " "@, esc);
        counts::lemma_lacks(d + " "@, last.keyword, esc);
        counts::lemma_lacks(parts_text(rest), " | "@, esc);
        counts::lemma_lacks(parts_text(rest) + " | "@, part_text(last), esc);
    }
}

/// A summary between white space shows itself, and is no line of a finished file.
pub proof fn lemma_summary_shown(
    lead: Seq<char>,
    parts: Seq<Part>,
    total: u32,
    trail: Seq<char>,
)
    requires
        text::all_white(lead),
        text::all_white(trail),
        are_parts(parts),
    ensures
        counts::shown(lead + summary_text(parts, total) + trail) == summary_text(parts, total),
        text::trim(lead + summary_text(parts, total) + trail) == summary_text(parts, total),
        "Tests"@.is_prefix_of(summary_text(parts, total)),
        !counts::is_completed_line(summary_text(parts, total)),
{
    let t = summary_text(parts, total);
    let d = text::decimal(total as nat);
    let esc = ansi::ESC;
    let head = "Tests "@ + parts_text(parts);
    lemma_literals();
    lemma_parts_plain(parts);
    counts::lemma_digits(total);
    counts::lemma_lacks("Tests "@, parts_text(parts), esc);
    counts::lemma_lacks(head, " ("@, esc);
    counts::lemma_lacks(head + " ("@, d, esc);
    counts::lemma_lacks(head + " ("@ + d, ")"@, esc);
    counts::lemma_white_lacks(lead, esc);
    counts::lemma_white_lacks(trail, esc);
    counts::lemma_lacks(lead, t, esc);
    counts::lemma_lacks(lead + t, trail, esc);
    ansi::law_plain_text_stays(lead + t + trail, Seq::empty());
    assert(t[0] == 'T');
    assert(t.last() == ')');
    text::lemma_trim_between(lead, t, trail);
    reveal_strlit("Tests");
    reveal_strlit("✓");
    assert(t.take(5) =~= "Tests"@);
    assert("✓"@[0] == '✓');
}

/// A summary gives what it counts: failed, passed and skipped together, and the total. The order
/// makes no difference, nor does white space around it, and what is left out counts for nothing.
pub proof fn law_summary_is_read(lead: Seq<char>, parts: Seq<Part>, total: u32, trail: Seq<char>)
    requires
        text::all_white(lead),
        text::all_white(trail),
        are_parts(parts),
        0 < counted(parts) <= u32::MAX,
    ensures
        counts::summary_readable(lead + summary_text(parts, total) + trail),
        counts::test_summary(lead + summary_text(parts, total) + trail) == Some(
            (counted(parts) as u32, total),
        ),
{
    lemma_summary_shown(lead, parts, total, trail);
    lemma_total(parts, total);
    lemma_counts(parts, total, "failed"@);
    lemma_counts(parts, total, "passed"@);
    lemma_counts(parts, total, "skipped"@);
}

/// Three parts make a summary in any of their six orders, and count the same in each.
pub proof fn law_six_orders(a: Part, b: Part, c: Part)
    requires
        is_keyword(a.keyword),
        is_keyword(b.keyword),
        is_keyword(c.keyword),
        a.keyword != b.keyword,
        b.keyword != c.keyword,
        a.keyword != c.keyword,
    ensures
        are_parts(seq![a, b, c]),
        counted(seq![a, b, c]) == a.count + b.count + c.count,
        counted(seq![a, b, c]) == counted(seq![b, a, c]),
        counted(seq![a, b, c]) == counted(seq![a, c, b]),
        counted(seq![a, b, c]) == counted(seq![b, c, a]),
        counted(seq![a, b, c]) == counted(seq![c, a, b]),
        counted(seq![a, b, c]) == counted(seq![c, b, a]),
{
    lemma_three(a, b, c);
    lemma_three(b, a, c);
    lemma_three(a, c, b);
    lemma_three(b, c, a);
    lemma_three(c, a, b);
    lemma_three(c, b, a);
}

proof fn lemma_three(a: Part, b: Part, c: Part)
    requires
        is_keyword(a.keyword),
        is_keyword(b.keyword),
        is_keyword(c.keyword),
        a.keyword != b.keyword,
        b.keyword != c.keyword,
        a.keyword != c.keyword,
    ensures
        are_parts(seq![a, b, c]),
        counted(seq![a, b, c]) == a.count + b.count + c.count,
{
    let parts = seq![a, b, c];
    assert(are_parts(parts));
    lemma_count_of(parts, 0);
    lemma_count_of(parts, 1);
    lemma_count_of(parts, 2);
    lemma_literals();
    assert("failed"@[0] != "passed"@[0] && "passed"@[0] != "skipped"@[0] && "failed"@[0]
        != "skipped"@[0]);
}

} // verus!
