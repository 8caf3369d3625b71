//! One run of a test command: what its output amounts to.

use crate::ansi;
use crate::cache;
use crate::chunks;
use crate::counts;
use crate::failure;
use crate::progress;
use crate::summary;
use crate::text;
use vstd::prelude::*;

verus! {

/// The text of `bytes`, with U+FFFD in the place of what is not UTF-8.
pub uninterp spec fn utf8_lossy(bytes: Seq<u8>) -> Seq<char>;

/// `String::from_utf8_lossy` gives a text that depends on the bytes alone; for valid UTF-8 it is
/// the text that they encode.
#[verifier::external_body]
fn decode_lossy(bytes: &[u8]) -> (r: String)
    ensures
        r@ == utf8_lossy(bytes@),
        vstd::utf8::valid_utf8(bytes@) ==> r@ == vstd::utf8::decode_utf8(bytes@),
{
    String::from_utf8_lossy(bytes).into_owned()
}

/// How many lines after a line that tells of a failure belong to it.
pub const MAX_FAILURE_LINES: usize = 50;

/// How many captured lines are kept at most.
pub const MAX_KEPT: usize = 1000;

/// How many captured lines are given up where there are too many.
pub const GIVEN_UP: usize = 100;

/// How many milliseconds lie between two looks at the progress, at least.
pub const REFRESH_MILLIS: u128 = 100;

/// What is known of a run.
pub struct State {
    /// The number of tests that was expected when the run began.
    pub expected: Option<u32>,
    /// The bytes of the character that is not finished yet.
    pub held: Seq<u8>,
    /// The line that is not finished yet.
    pub pending: Seq<char>,
    /// The tests that have been run.
    pub test_count: u32,
    /// The total that the run itself gave.
    pub final_total: Option<u32>,
    /// The lines captured for their failure.
    pub failures: Seq<Seq<char>>,
    /// The lines are part of a failure.
    pub in_block: bool,
    /// The lines of that failure so far.
    pub block_lines: nat,
}

/// The lines one after the other.
pub open spec fn joined(lines: Seq<Seq<char>>) -> Seq<char>
    decreases lines.len(),
{
    if lines.len() == 0 {
        Seq::empty()
    } else {
        joined(lines.drop_last()) + lines.last()
    }
}

/// A line with its end: one newline, the last character.
pub open spec fn is_line(s: Seq<char>) -> bool {
    s.len() > 0 && s.last() == '\n' && !s.drop_last().contains('\n')
}

/// `text` is made of the lines `lines`, and of `rest` without an end.
pub open spec fn is_split(text: Seq<char>, lines: Seq<Seq<char>>, rest: Seq<char>) -> bool {
    &&& text == joined(lines) + rest
    &&& forall|i: int| 0 <= i < lines.len() ==> is_line(#[trigger] lines[i])
    &&& !rest.contains('\n')
}

/// A line that may be a summary.
pub open spec fn may_be_summary(line: Seq<char>) -> bool {
    "Tests"@.is_prefix_of(text::trim(line)) || text::contains(line, "passed"@)
}

/// What a line says of the tests run and their total, if it is a summary.
pub open spec fn summary_of(line: Seq<char>) -> Option<(u32, u32)> {
    if may_be_summary(line) {
        counts::test_summary(line)
    } else {
        None
    }
}

/// The tests run by the end of the line, where `count` were run before it.
pub open spec fn count_after(count: u32, line: Seq<char>) -> int {
    let base = match summary_of(line) {
        Some((completed, _)) => completed,
        None => count,
    };
    match counts::completed_file_tests(line) {
        Some(n) => base + n,
        None => base as int,
    }
}

/// The total that is known by the end of the line.
pub open spec fn total_after(total: Option<u32>, line: Seq<char>) -> Option<u32> {
    match summary_of(line) {
        Some((_, total)) => Some(total),
        None => total,
    }
}

/// The captured lines after one more of them.
pub open spec fn kept(failures: Seq<Seq<char>>, line: Seq<char>) -> Seq<Seq<char>> {
    let all = failures.push(line);
    if all.len() > MAX_KEPT {
        all.skip(GIVEN_UP as int)
    } else {
        all
    }
}

impl State {
    /// Nothing has been run yet.
    pub open spec fn start(expected: Option<u32>) -> State {
        State {
            expected,
            held: Seq::empty(),
            pending: Seq::empty(),
            test_count: 0,
            final_total: None,
            failures: Seq::empty(),
            in_block: false,
            block_lines: 0,
        }
    }

    /// The counts in the line can be read and added up.
    pub open spec fn accepts(self, line: Seq<char>) -> bool {
        &&& may_be_summary(line) ==> counts::summary_readable(line)
        &&& counts::completed_file_readable(line)
        &&& count_after(self.test_count, line) <= u32::MAX
    }

    /// The state with the counts of the line.
    pub open spec fn counted(self, line: Seq<char>) -> State {
        State {
            test_count: count_after(self.test_count, line) as u32,
            final_total: total_after(self.final_total, line),
            ..self
        }
    }

    /// The total to show: the one expected, else the one that the run gave, else zero.
    pub open spec fn total(self) -> u32 {
        match (self.expected, self.final_total) {
            (Some(total), _) => total,
            (None, Some(total)) => total,
            (None, None) => 0,
        }
    }

    /// The number of tests to remember, where it is greater than the one expected.
    pub open spec fn to_remember(self) -> Option<u32> {
        let expected = match self.expected {
            Some(total) => total,
            None => 0,
        };
        if self.test_count > expected {
            Some(self.test_count)
        } else {
            None
        }
    }

    /// The state after a line, where `failing` says that the line tells of a failure: such a
    /// line is captured, and so are the lines that follow it, up to a number of them.
    pub open spec fn captured(self, line: Seq<char>, failing: bool) -> State {
        if failing {
            State {
                failures: kept(self.failures, line),
                in_block: true,
                block_lines: 1,
                ..self
            }
        } else if self.in_block {
            State {
                failures: kept(self.failures, line),
                in_block: self.block_lines + 1 <= MAX_FAILURE_LINES,
                block_lines: self.block_lines + 1,
                ..self
            }
        } else {
            self
        }
    }

    /// The state after a line.
    pub open spec fn processed(self, line: Seq<char>) -> State {
        self.counted(line).captured(line, failure::is_failure(line))
    }

    /// The state after some lines.
    pub open spec fn after(self, lines: Seq<Seq<char>>) -> State
        decreases lines.len(),
    {
        if lines.len() == 0 {
            self
        } else {
            self.after(lines.drop_last()).processed(lines.last())
        }
    }
}

/// What to do to show how far the run has come.
pub struct Refresh {
    /// What to print.
    pub text: String,
    /// The tests run, to tell those who watch.
    pub current: u32,
    /// Their total, to tell those who watch.
    pub total: u32,
    /// The number of tests to remember for the directory, if any.
    pub remember: Option<u32>,
}

/// What is left to do when the command has ended.
pub struct Outcome {
    /// What clears the progress.
    pub clear: String,
    /// What to print, and to send to those who watch.
    pub output: Vec<String>,
    /// The exit code.
    pub exit_code: i32,
}

/// The exit code as a signed number.
pub open spec fn signed(status: u32) -> int {
    if status <= i32::MAX {
        status as int
    } else {
        status - 0x1_0000_0000
    }
}

/// What is shown at the end: the captured lines, or, where there are none and the command
/// succeeded, that all is well.
pub open spec fn final_output(failures: Seq<Seq<char>>, exit_code: int) -> Seq<Seq<char>> {
    if failures.len() > 0 {
        failures
    } else if exit_code == 0 {
        seq!["All tests passed!\n"@]
    } else {
        Seq::empty()
    }
}

/// What is left to do when a run in the state `st` has ended with the exit code `status`.
pub open spec fn is_outcome(st: State, status: u32, r: Outcome) -> bool {
    &&& r.clear@ == progress::clear_text()
    &&& r.exit_code == signed(status)
    &&& text::texts(r.output@) == final_output(st.failures, signed(status))
}

/// A run of a test command.
pub struct Run {
    expected: Option<u32>,
    held: Vec<u8>,
    line_buffer: String,
    test_count: u32,
    final_total: Option<u32>,
    failure_buffer: Vec<String>,
    in_failure_block: bool,
    failure_block_lines: usize,
}

impl View for Run {
    type V = State;

    closed spec fn view(&self) -> State {
        State {
            expected: self.expected,
            held: self.held@,
            pending: self.line_buffer@,
            test_count: self.test_count,
            final_total: self.final_total,
            failures: text::texts(self.failure_buffer@),
            in_block: self.in_failure_block,
            block_lines: self.failure_block_lines as nat,
        }
    }
}

impl Run {
    #[verifier::type_invariant]
    spec fn inv(self) -> bool {
        &&& self.held@.len() <= 3
        &&& !self.line_buffer@.contains('\n')
        &&& self.failure_buffer@.len() <= MAX_KEPT
        &&& self.failure_block_lines <= MAX_FAILURE_LINES + 1
        &&& self.in_failure_block ==> self.failure_block_lines <= MAX_FAILURE_LINES
    }

    /// A run of which nothing has been read yet.
    pub fn new(expected: Option<u32>) -> (r: Run)
        ensures
            r@ == State::start(expected),
    {
        let r = Run {
            expected,
            held: Vec::new(),
            line_buffer: String::new(),
            test_count: 0,
            final_total: None,
            failure_buffer: Vec::new(),
            in_failure_block: false,
            failure_block_lines: 0,
        };
        assert(r@.failures =~= State::start(expected).failures);
        assert(r@.held =~= State::start(expected).held);
        r
    }

    /// Takes in bytes of the output, and hands back the lines that they finish. The bytes of a
    /// character that is not finished yet wait for those that follow.
    pub fn read(&mut self, bytes: &[u8]) -> (lines: Vec<String>)
        ensures
            final(self)@.held == chunks::held(old(self)@.held + bytes@),
            is_split(
                old(self)@.pending + utf8_lossy(chunks::whole(old(self)@.held + bytes@)),
                text::texts(lines@),
                final(self)@.pending,
            ),
            vstd::utf8::valid_utf8(chunks::whole(old(self)@.held + bytes@)) ==> is_split(
                old(self)@.pending + vstd::utf8::decode_utf8(
                    chunks::whole(old(self)@.held + bytes@),
                ),
                text::texts(lines@),
                final(self)@.pending,
            ),
            final(self)@ == (State {
                held: final(self)@.held,
                pending: final(self)@.pending,
                ..old(self)@
            }),
    {
        let mut all: Vec<u8> = self.held.clone();
        all.extend_from_slice(bytes);
        assert(all@ =~= self@.held + bytes@);
        proof {
            chunks::law_nothing_is_dropped(all@);
        }
        let n: usize = chunks::find_cut(all.as_slice());
        let held: Vec<u8> = all.split_off(n);
        let chunk: String = decode_lossy(all.as_slice());
        let lines: Vec<String> = self.push_text(chunk.as_str());
        proof {
            use_type_invariant(&*self);
        }
        self.held = held;
        lines
    }

    /// Takes in a piece of the output, and hands back the lines that it finishes.
    pub fn push_text(&mut self, chunk: &str) -> (lines: Vec<String>)
        ensures
            is_split(
                old(self)@.pending + chunk@,
                text::texts(lines@),
                final(self)@.pending,
            ),
            final(self)@ == (State { pending: final(self)@.pending, ..old(self)@ }),
    {
        proof {
            use_type_invariant(&*self);
        }
        let chars: Vec<char> = text::chars_of(chunk);
        let mut lines: Vec<String> = Vec::new();
        let mut line: String = self.line_buffer.clone();
        let mut i: usize = 0;
        assert(text::texts(lines@) =~= Seq::<Seq<char>>::empty());
        assert(joined(text::texts(lines@)) + line@ =~= self@.pending + chars@.take(0));
        while i < chars.len()
            invariant
                i <= chars@.len(),
                is_split(self@.pending + chars@.take(i as int), text::texts(lines@), line@),
            decreases chars@.len() - i,
        {
            let c: char = chars[i];
            let ghost before = text::texts(lines@);
            let ghost rest = line@;
            assert(chars@.take(i + 1) =~= chars@.take(i as int).push(c));
            line.push(c);
            assert(self@.pending + chars@.take(i + 1) =~= (self@.pending + chars@.take(
                i as int,
            )).push(c));
            assert((joined(before) + rest).push(c) =~= joined(before) + line@);
            if c == '\n' {
                assert(line@.drop_last() =~= rest);
                let ghost done = line@;
                lines.push(line);
                line = String::new();
                assert(text::texts(lines@) =~= before.push(done));
                assert(before.push(done).drop_last() =~= before);
                assert(self@.pending + chars@.take(i + 1) =~= joined(text::texts(lines@)) + line@);
            } else {
                assert forall|k: int| 0 <= k < line@.len() implies line@[k] != '\n' by {
                    if k < rest.len() {
                        assert(line@[k] == rest[k]);
                        assert(!rest.contains('\n'));
                    }
                }
            }
            i = i + 1;
        }
        assert(chars@.take(i as int) =~= chunk@);
        self.line_buffer = line;
        lines
    }

    /// Whether the counts in the line can be read and added up.
    pub fn accepts(&self, line: &str) -> (r: bool)
        ensures
            r == self@.accepts(line@),
    {
        let candidate: bool = Self::candidate(line);
        if candidate && !counts::can_parse_test_summary(line) {
            return false;
        }
        if !counts::can_parse_completed_file_tests(line) {
            return false;
        }
        let mut base: u32 = self.test_count;
        if candidate {
            if let Some((completed, _)) = counts::parse_test_summary(line) {
                base = completed;
            }
        }
        match counts::parse_completed_file_tests(line) {
            Some(n) => base as u64 + n as u64 <= u32::MAX as u64,
            None => true,
        }
    }

    fn candidate(line: &str) -> (r: bool)
        ensures
            r == may_be_summary(line@),
    {
        let chars: Vec<char> = text::chars_of(line);
        text::starts_with(text::strip_white(chars.as_slice()), "Tests") || text::contains_text(
            chars.as_slice(),
            "passed",
        )
    }

    /// Takes in the counts of a line.
    pub fn count(&mut self, line: &str)
        requires
            old(self)@.accepts(line@),
        ensures
            final(self)@ == old(self)@.counted(line@),
    {
        proof {
            use_type_invariant(&*self);
        }
        if Self::candidate(line) {
            if let Some((completed, total)) = counts::parse_test_summary(line) {
                self.test_count = completed;
                self.final_total = Some(total);
            }
        }
        if let Some(n) = counts::parse_completed_file_tests(line) {
            self.test_count = self.test_count + n;
        }
    }

    /// Captures a line for its failure, where `failing` says that it tells of one.
    pub fn capture(&mut self, line: &str, failing: bool)
        ensures
            final(self)@ == old(self)@.captured(line@, failing),
            final(self)@.failures.len() <= MAX_KEPT,
    {
        proof {
            use_type_invariant(&*self);
        }
        if !failing && !self.in_failure_block {
            return;
        }
        let mut lines: usize = if failing {
            0
        } else {
            self.failure_block_lines
        };
        let mut buffer: Vec<String> = Vec::new();
        std::mem::swap(&mut buffer, &mut self.failure_buffer);
        let ghost before = text::texts(buffer@);
        buffer.push(line.to_owned());
        assert(text::texts(buffer@) =~= before.push(line@));
        if buffer.len() > MAX_KEPT {
            let ghost all = buffer@;
            buffer = buffer.split_off(GIVEN_UP);
            assert(text::texts(buffer@) =~= text::texts(all).skip(GIVEN_UP as int));
        }
        lines = lines + 1;
        self.failure_buffer = buffer;
        self.in_failure_block = false;
        self.failure_block_lines = lines;
        self.in_failure_block = failing || lines <= MAX_FAILURE_LINES;
    }

    /// What to do to show how far the run has come, once it is time for that.
    pub fn refresh(&self, elapsed_millis: u128) -> (r: Option<Refresh>)
        ensures
            r is Some <==> elapsed_millis > REFRESH_MILLIS,
            r matches Some(refresh) ==> {
                &&& refresh.text@ == progress::progress_text(self@.test_count, self@.total())
                &&& refresh.current == self@.test_count
                &&& refresh.total == self@.total()
                &&& refresh.remember == self@.to_remember()
            },
    {
        if elapsed_millis <= REFRESH_MILLIS {
            return None;
        }
        let current: u32 = self.test_count;
        let total: u32 = match self.expected {
            Some(total) => total,
            None => self.final_total.unwrap_or(0),
        };
        let remember: Option<u32> = if current > self.expected.unwrap_or(0) {
            Some(current)
        } else {
            None
        };
        Some(Refresh { text: progress::render_progress(current, total), current, total, remember })
    }

    /// Takes in a line: its counts, then, if it is time, what they show, and its failure.
    pub fn process_line(&mut self, line: &str, elapsed_millis: u128) -> (r: Option<Refresh>)
        requires
            old(self)@.accepts(line@),
        ensures
            final(self)@ == old(self)@.processed(line@),
            final(self)@.failures.len() <= MAX_KEPT,
            r is Some <==> elapsed_millis > REFRESH_MILLIS,
            r matches Some(refresh) ==> {
                &&& refresh.text@ == progress::progress_text(
                    final(self)@.test_count,
                    final(self)@.total(),
                )
                &&& refresh.current == final(self)@.test_count
                &&& refresh.total == final(self)@.total()
                &&& refresh.remember == final(self)@.to_remember()
            },
    {
        self.count(line);
        let r: Option<Refresh> = self.refresh(elapsed_millis);
        self.capture(line, failure::is_failure_line(line));
        r
    }

    /// What is left when the output has ended: the line that is not finished, and the bytes that
    /// still wait, as far as they are text.
    pub fn pending(&self) -> (r: String)
        ensures
            r@ == self@.pending + utf8_lossy(self@.held),
            self@.held.len() == 0 ==> r@ == self@.pending,
    {
        let mut r: String = self.line_buffer.clone();
        let tail: String = decode_lossy(self.held.as_slice());
        r.append(tail.as_str());
        assert(self@.held.len() == 0 ==> r@ =~= self@.pending);
        r
    }

    /// The total that the run itself gave, if it gave one.
    pub fn get_final_total(&self) -> (r: Option<u32>)
        ensures
            r == self@.final_total,
    {
        self.final_total
    }

    /// What is left to do when the command has ended with the exit code `status`.
    pub fn finish(&self, status: u32) -> (r: Outcome)
        ensures
            r.clear@ == progress::clear_text(),
            r.exit_code == signed(status),
            text::texts(r.output@) == final_output(self@.failures, signed(status)),
            is_outcome(self@, status, r),
            self@.failures.len() > 0 ==> text::texts(r.output@) == self@.failures,
            self@.failures.len() == 0 && status == 0 ==> r.output@.len() == 1 && r.output@[0]@
                == "All tests passed!\n"@,
            self@.failures.len() == 0 && status != 0 ==> r.output@.len() == 0,
    {
        let exit_code: i32 = if status <= 0x7fff_ffff {
            status as i32
        } else {
            (status as i64 - 0x1_0000_0000) as i32
        };
        let mut output: Vec<String> = Vec::new();
        let n: usize = self.failure_buffer.len();
        if n > 0 {
            let mut i: usize = 0;
            while i < n
                invariant
                    n == self.failure_buffer@.len(),
                    i <= n,
                    text::texts(output@) == text::texts(self.failure_buffer@).take(i as int),
                decreases n - i,
            {
                let ghost before = text::texts(output@);
                output.push(self.failure_buffer[i].clone());
                assert(text::texts(output@) =~= before.push(self.failure_buffer@[i as int]@));
                assert(text::texts(self.failure_buffer@).take(i + 1) =~= text::texts(
                    self.failure_buffer@,
                ).take(i as int).push(self.failure_buffer@[i as int]@));
                i = i + 1;
            }
            assert(text::texts(output@) =~= self@.failures);
        } else if exit_code == 0 {
            output.push("All tests passed!\n".to_owned());
            assert(text::texts(output@) =~= seq!["All tests passed!\n"@]);
        } else {
            assert(text::texts(output@) =~= Seq::<Seq<char>>::empty());
        }
        assert(text::texts(output@).len() == output@.len());
        Outcome { clear: progress::clear_line(), output, exit_code }
    }
}

/// A text can be split into lines in one way only.
pub proof fn law_split_is_unique(
    text: Seq<char>,
    lines1: Seq<Seq<char>>,
    rest1: Seq<char>,
    lines2: Seq<Seq<char>>,
    rest2: Seq<char>,
)
    requires
        is_split(text, lines1, rest1),
        is_split(text, lines2, rest2),
    ensures
        lines1 == lines2,
        rest1 == rest2,
    decreases lines1.len(),
{
    lemma_last_newline(text, lines1, rest1);
    lemma_last_newline(text, lines2, rest2);
    let (a, b) = (joined(lines1), joined(lines2));
    if lines1.len() > 0 {
        assert(text[a.len() - 1] == '\n');
    }
    if lines2.len() > 0 {
        assert(text[b.len() - 1] == '\n');
    }
    assert(a.len() == b.len());
    assert(a =~= text.take(a.len() as int));
    assert(b =~= text.take(b.len() as int));
    assert(rest1 =~= text.skip(a.len() as int));
    assert(rest2 =~= text.skip(b.len() as int));
    if lines1.len() > 0 {
        assert(lines2.len() > 0);
        let (l1, l2) = (lines1.last(), lines2.last());
        assert(is_line(l1) && is_line(l2)) by {
            assert(is_line(lines1[lines1.len() - 1]));
            assert(is_line(lines2[lines2.len() - 1]));
        }
        let inner = a.drop_last();
        assert(inner =~= joined(lines1.drop_last()) + l1.drop_last());
        assert(inner =~= joined(lines2.drop_last()) + l2.drop_last());
        assert forall|i: int| 0 <= i < lines1.len() - 1 implies is_line(
            #[trigger] lines1.drop_last()[i],
        ) by {
            assert(is_line(lines1[i]));
        }
        assert forall|i: int| 0 <= i < lines2.len() - 1 implies is_line(
            #[trigger] lines2.drop_last()[i],
        ) by {
            assert(is_line(lines2[i]));
        }
        law_split_is_unique(
            inner,
            lines1.drop_last(),
            l1.drop_last(),
            lines2.drop_last(),
            l2.drop_last(),
        );
        assert(l1 =~= l1.drop_last().push('\n'));
        assert(l2 =~= l2.drop_last().push('\n'));
        assert(lines1 =~= lines1.drop_last().push(l1));
        assert(lines2 =~= lines2.drop_last().push(l2));
    } else if lines2.len() > 0 {
        assert(false);
    } else {
        assert(lines1 =~= lines2);
    }
}

proof fn lemma_last_newline(text: Seq<char>, lines: Seq<Seq<char>>, rest: Seq<char>)
    requires
        is_split(text, lines, rest),
    ensures
        forall|i: int| joined(lines).len() <= i < text.len() ==> text[i] != '\n',
        lines.len() > 0 ==> joined(lines).len() > 0 && text[joined(lines).len() - 1] == '\n',
        lines.len() == 0 ==> joined(lines).len() == 0,
{
    let n = joined(lines).len() as int;
    assert forall|i: int| n <= i < text.len() implies text[i] != '\n' by {
        assert(text[i] == rest[i - n]);
    }
    if lines.len() > 0 {
        assert(is_line(lines[lines.len() - 1]));
        assert(joined(lines).last() == lines.last().last());
    }
}

proof fn lemma_joined(a: Seq<Seq<char>>, b: Seq<Seq<char>>)
    ensures
        joined(a + b) == joined(a) + joined(b),
    decreases b.len(),
{
    if b.len() > 0 {
        assert((a + b).drop_last() =~= a + b.drop_last());
        assert((a + b).last() == b.last());
        lemma_joined(a, b.drop_last());
        assert(joined(a) + joined(b.drop_last()) + b.last() =~= joined(a) + (joined(b.drop_last())
            + b.last()));
    } else {
        assert(a + b =~= a);
        assert(joined(a) + joined(b) =~= joined(a));
    }
}

/// It makes no difference into which pieces the output is cut: the lines are the same.
pub proof fn law_pieces_make_no_difference(
    first: Seq<char>,
    second: Seq<char>,
    lines1: Seq<Seq<char>>,
    rest1: Seq<char>,
    lines2: Seq<Seq<char>>,
    rest2: Seq<char>,
)
    requires
        is_split(first, lines1, rest1),
        is_split(rest1 + second, lines2, rest2),
    ensures
        is_split(first + second, lines1 + lines2, rest2),
{
    lemma_joined(lines1, lines2);
    assert(first + second =~= joined(lines1) + (rest1 + second));
    assert(joined(lines1) + (joined(lines2) + rest2) =~= joined(lines1) + joined(lines2) + rest2);
    assert forall|i: int| 0 <= i < (lines1 + lines2).len() implies is_line(
        #[trigger] (lines1 + lines2)[i],
    ) by {
        if i < lines1.len() {
            assert((lines1 + lines2)[i] == lines1[i]);
        } else {
            assert((lines1 + lines2)[i] == lines2[i - lines1.len()]);
        }
    }
}

/// It makes no difference where the bytes of the output are cut, be it inside a character: one
/// more piece of output that is valid UTF-8 in the end gives the lines and the rest of all that
/// has come, up to a character that is not finished yet.
pub proof fn law_reading_goes_on(
    total: Seq<u8>,
    piece: Seq<u8>,
    more: Seq<u8>,
    lines1: Seq<Seq<char>>,
    rest1: Seq<char>,
    lines2: Seq<Seq<char>>,
    rest2: Seq<char>,
)
    requires
        vstd::utf8::valid_utf8(total + piece + more),
        vstd::utf8::valid_utf8(chunks::whole(total)) ==> is_split(
            vstd::utf8::decode_utf8(chunks::whole(total)),
            lines1,
            rest1,
        ),
        vstd::utf8::valid_utf8(chunks::whole(chunks::held(total) + piece)) ==> is_split(
            rest1 + vstd::utf8::decode_utf8(chunks::whole(chunks::held(total) + piece)),
            lines2,
            rest2,
        ),
    ensures
        vstd::utf8::valid_utf8(chunks::whole(total)),
        vstd::utf8::valid_utf8(chunks::whole(chunks::held(total) + piece)),
        chunks::held(total + piece) == chunks::held(chunks::held(total) + piece),
        is_split(
            vstd::utf8::decode_utf8(chunks::whole(total + piece)),
            lines1 + lines2,
            rest2,
        ),
{
    let (first, next) = (chunks::whole(total), chunks::held(total) + piece);
    assert(total + piece + more =~= total + (piece + more));
    chunks::law_whole_characters_are_valid(total, piece + more);
    assert(chunks::held(total) + (piece + more) =~= next + more);
    chunks::law_whole_characters_are_valid(next, more);
    chunks::law_waiting_goes_on(total, piece);
    let second = chunks::whole(next);
    lemma_decode_both(first, second);
    law_pieces_make_no_difference(
        vstd::utf8::decode_utf8(first),
        vstd::utf8::decode_utf8(second),
        lines1,
        rest1,
        lines2,
        rest2,
    );
}

proof fn lemma_decode_both(a: Seq<u8>, b: Seq<u8>)
    requires
        vstd::utf8::valid_utf8(a),
        vstd::utf8::valid_utf8(b),
    ensures
        vstd::utf8::valid_utf8(a + b),
        vstd::utf8::decode_utf8(a + b) == vstd::utf8::decode_utf8(a) + vstd::utf8::decode_utf8(b),
{
    vstd::utf8::valid_utf8_concat(a, b);
    chunks::law_nothing_waits_at_the_end(a);
    chunks::law_whole_characters_are_valid(a, b);
    assert(chunks::held(a) + b =~= b);
}

/// Two pieces that are valid UTF-8 together give the lines and the rest of their text, wherever
/// the cut between them falls, and nothing waits any more.
pub proof fn law_cuts_make_no_difference(
    a: Seq<u8>,
    b: Seq<u8>,
    lines1: Seq<Seq<char>>,
    rest1: Seq<char>,
    lines2: Seq<Seq<char>>,
    rest2: Seq<char>,
)
    requires
        vstd::utf8::valid_utf8(a + b),
        vstd::utf8::valid_utf8(chunks::whole(a)) ==> is_split(
            vstd::utf8::decode_utf8(chunks::whole(a)),
            lines1,
            rest1,
        ),
        vstd::utf8::valid_utf8(chunks::whole(chunks::held(a) + b)) ==> is_split(
            rest1 + vstd::utf8::decode_utf8(chunks::whole(chunks::held(a) + b)),
            lines2,
            rest2,
        ),
    ensures
        vstd::utf8::valid_utf8(chunks::whole(a)),
        vstd::utf8::valid_utf8(chunks::whole(chunks::held(a) + b)),
        chunks::held(chunks::held(a) + b) == Seq::<u8>::empty(),
        is_split(vstd::utf8::decode_utf8(a + b), lines1 + lines2, rest2),
{
    assert(a + b + Seq::<u8>::empty() =~= a + b);
    law_reading_goes_on(a, b, Seq::empty(), lines1, rest1, lines2, rest2);
    chunks::law_nothing_waits_at_the_end(a + b);
}

/// The lines and the rest of the whole output, which is valid UTF-8, are the output: no byte of
/// it is lost, changed or doubled.
pub proof fn law_full_output_is_kept(output: Seq<u8>, lines: Seq<Seq<char>>, rest: Seq<char>)
    requires
        vstd::utf8::valid_utf8(output),
        is_split(vstd::utf8::decode_utf8(chunks::whole(output)), lines, rest),
    ensures
        chunks::held(output) == Seq::<u8>::empty(),
        vstd::utf8::encode_utf8(joined(lines) + rest) == output,
{
    chunks::law_nothing_waits_at_the_end(output);
    vstd::utf8::decode_utf8_encode_utf8(output);
}

/// The line at `i` tells of a failure, or follows one that does within the number of lines that
/// belong to it.
pub open spec fn in_failure(lines: Seq<Seq<char>>, i: int) -> bool {
    exists|j: int|
        0 <= j <= i && i - MAX_FAILURE_LINES <= j && #[trigger] failure::is_failure(lines[j])
}

/// The lines that belong to a failure.
pub open spec fn failure_lines(lines: Seq<Seq<char>>) -> Seq<Seq<char>>
    decreases lines.len(),
{
    if lines.len() == 0 {
        Seq::empty()
    } else {
        let before = failure_lines(lines.drop_last());
        if in_failure(lines, lines.len() - 1) {
            before.push(lines.last())
        } else {
            before
        }
    }
}

proof fn lemma_block(expected: Option<u32>, lines: Seq<Seq<char>>)
    ensures
        ({
            let st = State::start(expected).after(lines);
            let n = lines.len() as int;
            &&& st.in_block ==> {
                &&& 1 <= st.block_lines <= MAX_FAILURE_LINES
                &&& st.block_lines <= n
                &&& failure::is_failure(lines[n - st.block_lines])
            }
            &&& forall|j: int|
                0 <= j < n && n - MAX_FAILURE_LINES <= j && #[trigger] failure::is_failure(lines[j])
                    ==> st.in_block && n - st.block_lines >= j
        }),
    decreases lines.len(),
{
    if lines.len() > 0 {
        let before = lines.drop_last();
        lemma_block(expected, before);
        let old_st = State::start(expected).after(before);
        let st = State::start(expected).after(lines);
        let n = lines.len() as int;
        assert forall|j: int|
            0 <= j < n && n - MAX_FAILURE_LINES <= j && #[trigger] failure::is_failure(
                lines[j],
            ) implies st.in_block && n - st.block_lines >= j by {
            if j < n - 1 {
                assert(before[j] == lines[j]);
                assert(failure::is_failure(before[j]));
            }
        }
        if st.in_block && !failure::is_failure(lines[n - 1]) {
            assert(before[n - 1 - old_st.block_lines] == lines[n - st.block_lines]);
        }
    }
}

/// What is shown at the end is what belongs to a failure, and nothing else: each line that tells
/// of one and the lines that follow it. All of it is shown, unless it is more than can be kept;
/// then the oldest lines are given up, and no more of them than needed.
pub proof fn law_failures_are_shown(expected: Option<u32>, lines: Seq<Seq<char>>)
    ensures
        ({
            let shown = State::start(expected).after(lines).failures;
            let all = failure_lines(lines);
            &&& shown.len() <= all.len()
            &&& shown == all.skip(all.len() - shown.len())
            &&& shown.len() <= MAX_KEPT
            &&& all.len() <= MAX_KEPT ==> shown == all
            &&& all.len() > MAX_KEPT ==> shown.len() > MAX_KEPT - GIVEN_UP
        }),
    decreases lines.len(),
{
    let st = State::start(expected).after(lines);
    let all = failure_lines(lines);
    if lines.len() > 0 {
        let before = lines.drop_last();
        let old_st = State::start(expected).after(before);
        let old_all = failure_lines(before);
        let n = lines.len() as int;
        law_failures_are_shown(expected, before);
        lemma_block(expected, before);
        assert(in_failure(lines, n - 1) <==> failure::is_failure(lines[n - 1]) || old_st.in_block)
            by {
            if in_failure(lines, n - 1) {
                let j = choose|j: int|
                    0 <= j <= n - 1 && n - 1 - MAX_FAILURE_LINES <= j
                        && #[trigger] failure::is_failure(lines[j]);
                if j < n - 1 {
                    assert(before[j] == lines[j]);
                    assert(failure::is_failure(before[j]));
                }
            }
            if old_st.in_block {
                let j = n - 1 - old_st.block_lines;
                assert(before[j] == lines[j]);
                assert(failure::is_failure(lines[j]));
            }
        }
        let shown = st.failures;
        let k = old_all.len() - old_st.failures.len();
        if in_failure(lines, n - 1) {
            let pushed = old_st.failures.push(lines.last());
            assert(pushed =~= all.skip(k));
            if pushed.len() > MAX_KEPT {
                assert(shown =~= all.skip(k + GIVEN_UP));
            }
        }
        assert(shown =~= all.skip(all.len() - shown.len()));
    } else {
        assert(all.skip(0) =~= all);
    }
    assert(all.skip(0) =~= all);
}

/// The tests of all finished files together.
pub open spec fn finished_tests(lines: Seq<Seq<char>>) -> nat
    decreases lines.len(),
{
    if lines.len() == 0 {
        0
    } else {
        finished_tests(lines.drop_last()) + match counts::completed_file_tests(lines.last()) {
            Some(n) => n as nat,
            None => 0,
        }
    }
}

/// From any state on, files that finish add to the count until the run gives a summary, and the
/// total that it gave stays.
pub proof fn law_later_files_add_up(st: State, lines: Seq<Seq<char>>)
    requires
        forall|i: int| 0 <= i < lines.len() ==> summary_of(#[trigger] lines[i]) is None,
        st.test_count + finished_tests(lines) <= u32::MAX,
    ensures
        st.after(lines).test_count == st.test_count + finished_tests(lines),
        st.after(lines).final_total == st.final_total,
    decreases lines.len(),
{
    if lines.len() > 0 {
        let before = lines.drop_last();
        assert forall|i: int| 0 <= i < before.len() implies summary_of(#[trigger] before[i]) is None by {
            assert(before[i] == lines[i]);
        }
        law_later_files_add_up(st, before);
        assert(summary_of(lines[lines.len() - 1]) is None);
    }
}

/// Until the run gives a summary, the count is that of all finished files together.
pub proof fn law_finished_files_add_up(expected: Option<u32>, lines: Seq<Seq<char>>)
    requires
        forall|i: int| 0 <= i < lines.len() ==> summary_of(#[trigger] lines[i]) is None,
        finished_tests(lines) <= u32::MAX,
    ensures
        State::start(expected).after(lines).test_count == finished_tests(lines),
        State::start(expected).after(lines).final_total is None,
{
    law_later_files_add_up(State::start(expected), lines);
}

/// The last summary counts, and the files that finish after it add to its count: whatever came
/// before it makes no difference.
pub proof fn law_last_summary_counts(
    st: State,
    summary: Seq<char>,
    completed: u32,
    total: u32,
    lines: Seq<Seq<char>>,
)
    requires
        summary_of(summary) == Some((completed, total)),
        forall|i: int| 0 <= i < lines.len() ==> summary_of(#[trigger] lines[i]) is None,
        completed + finished_tests(lines) <= u32::MAX,
    ensures
        st.processed(summary).after(lines).test_count == completed + finished_tests(lines),
        st.processed(summary).after(lines).final_total == Some(total),
{
    counts::law_summary_is_no_finished_file(summary);
    law_later_files_add_up(st.processed(summary), lines);
}

/// What waits for more output makes no difference to what is counted and captured, and lines that
/// are taken in leave it as it is: reading between lines changes nothing of them.
pub proof fn law_reading_between_lines_changes_nothing(
    st: State,
    held: Seq<u8>,
    pending: Seq<char>,
    lines: Seq<Seq<char>>,
)
    ensures
        (State { held, pending, ..st }).after(lines) == (State { held, pending, ..st.after(lines) }),
    decreases lines.len(),
{
    if lines.len() > 0 {
        law_reading_between_lines_changes_nothing(st, held, pending, lines.drop_last());
    }
}

/// Lines taken in one lot after the other are taken in as if they were one lot.
pub proof fn law_lots_make_no_difference(st: State, a: Seq<Seq<char>>, b: Seq<Seq<char>>)
    ensures
        st.after(a + b) == st.after(a).after(b),
    decreases b.len(),
{
    if b.len() > 0 {
        assert((a + b).drop_last() =~= a + b.drop_last());
        assert((a + b).last() == b.last());
        law_lots_make_no_difference(st, a, b.drop_last());
    } else {
        assert(a + b =~= a);
    }
}

/// A total that was known at the start is the one shown throughout.
pub proof fn law_known_total_is_shown(total: u32, lines: Seq<Seq<char>>)
    ensures
        State::start(Some(total)).after(lines).total() == total,
    decreases lines.len(),
{
    if lines.len() > 0 {
        law_known_total_is_shown(total, lines.drop_last());
    }
    lemma_expected_stays(Some(total), lines);
}

proof fn lemma_expected_stays(expected: Option<u32>, lines: Seq<Seq<char>>)
    ensures
        State::start(expected).after(lines).expected == expected,
    decreases lines.len(),
{
    if lines.len() > 0 {
        lemma_expected_stays(expected, lines.drop_last());
    }
}

/// A number of tests that is remembered for a directory is the total that its next run shows,
/// in a bar and from the start.
pub proof fn law_remembered_count_is_shown(
    m: Map<Seq<char>, cache::DirEntry>,
    dir: Seq<char>,
    count: u32,
    since_epoch: Option<u64>,
    lines: Seq<Seq<char>>,
)
    requires
        count > 0,
    ensures
        ({
            let remembered = cache::with_count(m, dir, count, since_epoch);
            let st = State::start(cache::expected_tests(remembered, dir)).after(lines);
            &&& st.total() == count
            &&& progress::progress_text(st.test_count, st.total()) == progress::progress_bar(
                st.test_count,
                count,
                progress::WIDTH,
            )
        }),
{
    cache::law_count_is_given_back(m, dir, count, since_epoch, dir);
    law_known_total_is_shown(count, lines);
}

/// A summary as test runners print it sets the count and the total.
pub proof fn law_summary_sets_the_counts(
    st: State,
    lead: Seq<char>,
    parts: Seq<summary::Part>,
    total: u32,
    trail: Seq<char>,
)
    requires
        text::all_white(lead),
        text::all_white(trail),
        summary::are_parts(parts),
        0 < summary::counted(parts) <= u32::MAX,
    ensures
        ({
            let line = lead + summary::summary_text(parts, total) + trail;
            &&& st.accepts(line)
            &&& st.processed(line).test_count == summary::counted(parts)
            &&& st.processed(line).final_total == Some(total)
        }),
{
    summary::law_summary_is_read(lead, parts, total, trail);
    summary::lemma_summary_shown(lead, parts, total, trail);
}

/// At the end the captured lines are shown, all of them and in order, whatever the exit code is.
/// Where there are none, that all tests passed is said just where the exit code is zero, and
/// otherwise nothing. The exit code is that of the command.
pub proof fn law_end_of_a_run(st: State, status: u32, r: Outcome)
    requires
        is_outcome(st, status, r),
    ensures
        st.failures.len() > 0 ==> r.output@.len() == st.failures.len(),
        st.failures.len() > 0 ==> forall|i: int|
            0 <= i < st.failures.len() ==> (#[trigger] r.output@[i])@ == st.failures[i],
        st.failures.len() == 0 && status == 0 ==> r.output@.len() == 1 && r.output@[0]@
            == "All tests passed!\n"@,
        st.failures.len() == 0 && status != 0 ==> r.output@.len() == 0,
        forall|i: int|
            0 <= i < r.output@.len() && status != 0 ==> st.failures.contains(
                (#[trigger] r.output@[i])@,
            ),
        (r.exit_code - status) % 0x1_0000_0000 == 0,
        r.exit_code == 0 <==> status == 0,
{
    let shown = text::texts(r.output@);
    assert(shown.len() == r.output@.len());
    assert forall|i: int| 0 <= i < r.output@.len() implies shown[i] == (#[trigger] r.output@[i])@ by {}
    if st.failures.len() == 0 && status == 0 {
        assert(shown[0] == r.output@[0]@);
    }
    if status != 0 {
        assert forall|i: int| 0 <= i < r.output@.len() implies st.failures.contains(
            (#[trigger] r.output@[i])@,
        ) by {
            assert(st.failures[i] == r.output@[i]@);
        }
    }
}

/// Every line with the word `passed` in it that can be read as a summary sets the count and the
/// total, whatever else stands in it.
pub proof fn law_passed_line_sets_the_counts(
    st: State,
    a: Seq<char>,
    b: Seq<char>,
    completed: u32,
    total: u32,
)
    requires
        counts::test_summary(a + "passed"@ + b) == Some((completed, total)),
    ensures
        st.processed(a + "passed"@ + b).test_count == completed,
        st.processed(a + "passed"@ + b).final_total == Some(total),
{
    let line = a + "passed"@ + b;
    text::law_contains_what_it_is_made_of(line, "passed"@);
    counts::law_summary_is_no_finished_file(line);
}

/// Every line that starts with `Tests` behind its white space and that can be read as a summary
/// sets the count and the total.
pub proof fn law_tests_line_sets_the_counts(
    st: State,
    lead: Seq<char>,
    rest: Seq<char>,
    completed: u32,
    total: u32,
)
    requires
        text::all_white(lead),
        counts::test_summary(lead + "Tests"@ + rest) == Some((completed, total)),
    ensures
        st.processed(lead + "Tests"@ + rest).test_count == completed,
        st.processed(lead + "Tests"@ + rest).final_total == Some(total),
{
    let line = lead + "Tests"@ + rest;
    reveal_strlit("Tests");
    let t = "Tests"@ + rest;
    assert(line =~= lead + "Tests"@ + rest);
    assert(!text::is_white("Tests"@[0]) && !text::is_white("Tests"@.last()));
    text::lemma_trim_between(lead, "Tests"@, rest);
    let trimmed = text::trim(line);
    assert(trimmed.take(5) =~= "Tests"@);
    assert("Tests"@.is_prefix_of(trimmed));
    counts::law_summary_is_no_finished_file(line);
}

/// Colours make no difference to a run: a line that shows a summary sets the count and the total
/// wherever it is coloured, as long as the word `passed` is whole.
pub proof fn law_coloured_summary_sets_the_counts(
    st: State,
    a: Seq<char>,
    b: Seq<char>,
    lead: Seq<char>,
    parts: Seq<summary::Part>,
    total: u32,
    trail: Seq<char>,
)
    requires
        text::all_white(lead),
        text::all_white(trail),
        summary::are_parts(parts),
        0 < summary::counted(parts) <= u32::MAX,
        ansi::stripped(a + "passed"@ + b) == lead + summary::summary_text(parts, total) + trail,
    ensures
        st.accepts(a + "passed"@ + b),
        st.processed(a + "passed"@ + b).test_count == summary::counted(parts),
        st.processed(a + "passed"@ + b).final_total == Some(total),
{
    let line = a + "passed"@ + b;
    summary::law_summary_is_read(lead, parts, total, trail);
    summary::lemma_summary_shown(lead, parts, total, trail);
    counts::law_colours_do_not_count(line);
    law_passed_line_sets_the_counts(st, a, b, summary::counted(parts) as u32, total);
    text::law_contains_what_it_is_made_of(line, "passed"@);
    counts::law_summary_is_no_finished_file(line);
}

/// A line that neither starts with `Tests` nor has the word `passed` in it gives no total, and adds
/// to the count the tests of a finished file only.
pub proof fn law_other_lines_give_no_total(st: State, line: Seq<char>)
    requires
        st.accepts(line),
        !"Tests"@.is_prefix_of(text::trim(line)),
        forall|a: Seq<char>, b: Seq<char>| line != #[trigger] (a + "passed"@ + b),
    ensures
        st.processed(line).final_total == st.final_total,
        st.processed(line).test_count == st.test_count + match counts::completed_file_tests(line) {
            Some(n) => n as int,
            None => 0,
        },
{
    text::law_contains_what_it_is_made_of(line, "passed"@);
}

/// A line that is no summary, whatever it starts with, gives no total either.
pub proof fn law_what_is_no_summary_gives_no_total(st: State, line: Seq<char>)
    requires
        st.accepts(line),
        counts::test_summary(line) is None,
    ensures
        st.processed(line).final_total == st.final_total,
        st.processed(line).test_count == st.test_count + match counts::completed_file_tests(line) {
            Some(n) => n as int,
            None => 0,
        },
{
}

/// A line changes neither what was expected nor what waits to be read.
pub proof fn law_line_leaves_the_rest(st: State, line: Seq<char>)
    ensures
        st.processed(line).expected == st.expected,
        st.processed(line).held == st.held,
        st.processed(line).pending == st.pending,
{
}

/// A line is taken in if its parentheses are in order and its counts fit.
pub proof fn law_readable_lines_are_accepted(st: State, line: Seq<char>)
    requires
        counts::parens_in_order(counts::shown(line)),
        counts::completed_count(counts::shown(line)) <= u32::MAX,
        st.test_count + match counts::completed_file_tests(line) {
            Some(n) => n as int,
            None => 0,
        } <= u32::MAX,
    ensures
        st.accepts(line),
{
    counts::law_summary_is_no_finished_file(line);
}

/// A line that shows no parentheses, or only closing ones, is always taken in, and counts for
/// nothing.
pub proof fn law_lines_without_parentheses_count_for_nothing(st: State, line: Seq<char>)
    requires
        !counts::shown(line).contains('('),
    ensures
        st.accepts(line),
        st.processed(line).test_count == st.test_count,
        st.processed(line).final_total == st.final_total,
{
}

/// Up to a thousand captured lines are kept, in order. Where one more comes, the hundred oldest
/// are given up.
pub proof fn law_captured_lines_are_kept(failures: Seq<Seq<char>>, line: Seq<char>)
    requires
        failures.len() <= 1000,
    ensures
        failures.len() < 1000 ==> kept(failures, line) == failures.push(line),
        failures.len() == 1000 ==> kept(failures, line).len() == 901,
        failures.len() == 1000 ==> kept(failures, line).last() == line,
        failures.len() == 1000 ==> forall|i: int|
            0 <= i < 900 ==> #[trigger] kept(failures, line)[i] == failures[i + 100],
{
}

/// A line that tells of a failure is captured at once, and so is a line within a failure; any
/// other line leaves what was captured as it is.
pub proof fn law_lines_of_a_failure_are_captured(st: State, line: Seq<char>, failing: bool)
    requires
        st.failures.len() < 1000,
    ensures
        failing || st.in_block ==> st.captured(line, failing).failures == st.failures.push(line),
        !failing && !st.in_block ==> st.captured(line, failing) == st,
        failing ==> st.captured(line, failing).in_block,
        st.captured(line, failing).test_count == st.test_count,
        st.captured(line, failing).final_total == st.final_total,
{
}

/// The total that is shown is the one expected, where there is one; else the one that the run
/// gave; else zero.
pub proof fn law_total_to_show(st: State, n: u32)
    ensures
        st.expected == Some(n) ==> st.total() == n,
        st.expected is None && st.final_total == Some(n) ==> st.total() == n,
        st.expected is None && st.final_total is None ==> st.total() == 0,
{
}

/// The count is remembered just where more tests have run than were expected, or any where
/// nothing was.
pub proof fn law_greater_counts_are_remembered(st: State, n: u32)
    ensures
        st.to_remember() == Some(n) ==> st.test_count == n,
        st.expected == Some(n) ==> (st.to_remember() is Some <==> st.test_count > n),
        st.expected is None ==> (st.to_remember() is Some <==> st.test_count > 0),
{
}

/// Lines and what follows them are, one after the other, the text that they are the lines of; each
/// line has a newline at its end and nowhere else, and what follows has none.
pub proof fn law_lines_make_up_the_text(text: Seq<char>, lines: Seq<Seq<char>>, rest: Seq<char>)
    ensures
        is_split(text, lines, rest) <==> {
            &&& lines.flatten() + rest == text
            &&& forall|i: int|
                #![trigger lines[i]]
                0 <= i < lines.len() ==> lines[i].len() > 0 && lines[i].last() == '\n' && !lines[i]
                    .drop_last().contains('\n')
            &&& !rest.contains('\n')
        },
{
    lemma_joined_is_flat(lines);
    if is_split(text, lines, rest) {
        assert forall|i: int| 0 <= i < lines.len() implies lines[i].len() > 0 && (
        #[trigger] lines[i]).last() == '\n' && !lines[i].drop_last().contains('\n') by {
            assert(is_line(lines[i]));
        }
    }
}

proof fn lemma_joined_is_flat(lines: Seq<Seq<char>>)
    ensures
        joined(lines) == lines.flatten(),
    decreases lines.len(),
{
    lines.lemma_flatten_and_flatten_alt_are_equivalent();
    if lines.len() > 0 {
        lemma_joined_is_flat(lines.drop_last());
        lines.drop_last().lemma_flatten_and_flatten_alt_are_equivalent();
    }
}

/// A run in which no line tells of a failure shows nothing of its output: only that all tests
/// passed, where the command succeeded.
pub proof fn law_clean_run_shows_no_line(
    expected: Option<u32>,
    lines: Seq<Seq<char>>,
    status: u32,
    r: Outcome,
)
    requires
        forall|i: int| 0 <= i < lines.len() ==> !failure::is_failure(#[trigger] lines[i]),
        is_outcome(State::start(expected).after(lines), status, r),
    ensures
        status == 0 ==> r.output@.len() == 1 && r.output@[0]@ == "All tests passed!\n"@,
        status != 0 ==> r.output@.len() == 0,
{
    lemma_nothing_captured(expected, lines);
    law_end_of_a_run(State::start(expected).after(lines), status, r);
}

proof fn lemma_nothing_captured(expected: Option<u32>, lines: Seq<Seq<char>>)
    requires
        forall|i: int| 0 <= i < lines.len() ==> !failure::is_failure(#[trigger] lines[i]),
    ensures
        State::start(expected).after(lines).failures.len() == 0,
        !State::start(expected).after(lines).in_block,
    decreases lines.len(),
{
    if lines.len() > 0 {
        let before = lines.drop_last();
        assert forall|i: int| 0 <= i < before.len() implies !failure::is_failure(
            #[trigger] before[i],
        ) by {
            assert(before[i] == lines[i]);
        }
        lemma_nothing_captured(expected, before);
        assert(!failure::is_failure(lines[lines.len() - 1]));
    }
}

/// A line that tells of a failure is shown at the end, and so are the fifty lines behind it, as
/// long as no more lines than can be kept belong to failures.
pub proof fn law_failure_and_what_follows_are_shown(
    expected: Option<u32>,
    lines: Seq<Seq<char>>,
    status: u32,
    r: Outcome,
    i: int,
    j: int,
)
    requires
        0 <= i <= j < lines.len(),
        j <= i + 50,
        failure::is_failure(lines[i]),
        failure_lines(lines).len() <= 1000,
        is_outcome(State::start(expected).after(lines), status, r),
    ensures
        text::texts(r.output@).contains(lines[j]),
{
    let st = State::start(expected).after(lines);
    law_failures_are_shown(expected, lines);
    assert(in_failure(lines, j));
    lemma_failure_line_is_there(lines, j);
    law_end_of_a_run(st, status, r);
}

proof fn lemma_failure_line_is_there(lines: Seq<Seq<char>>, j: int)
    requires
        0 <= j < lines.len(),
        in_failure(lines, j),
    ensures
        failure_lines(lines).contains(lines[j]),
    decreases lines.len(),
{
    let all = failure_lines(lines);
    let front = lines.drop_last();
    if j == lines.len() - 1 {
        assert(all[all.len() - 1] == lines[j]);
    } else {
        let k = choose|k: int|
            0 <= k <= j && j - MAX_FAILURE_LINES <= k && #[trigger] failure::is_failure(lines[k]);
        assert(front[k] == lines[k]);
        assert(failure::is_failure(front[k]));
        assert(in_failure(front, j));
        lemma_failure_line_is_there(front, j);
        let before = failure_lines(front);
        let m = choose|m: int| 0 <= m < before.len() && before[m] == front[j];
        assert(all[m] == lines[j]);
    }
}

} // verus!
