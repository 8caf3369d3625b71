//! Where to run the command, when the current directory holds no package.

use crate::cache;
use crate::cache::TestCache;
use crate::text;
use vstd::prelude::*;

verus! {

/// How many directories are offered at most: one for each digit.
pub const MAX_OFFERED: usize = 10;

/// Why no directory was selected.
#[derive(Clone, Copy, Debug, PartialEq, Eq)]
pub enum SelectError {
    /// No directory is remembered.
    NoneCached,
    /// None of those remembered holds a package any more.
    NoneValid,
    /// The key stands for none of those offered.
    InvalidKey(char),
}

impl SelectError {
    /// What is said of the error.
    pub open spec fn text(self) -> Seq<char> {
        match self {
            SelectError::NoneCached => {
                "No package.json found and no recent test directories cached"@
            },
            SelectError::NoneValid => "No package.json found and no valid cached directories"@,
            SelectError::InvalidKey(c) => "Invalid selection: "@.push(c),
        }
    }

    /// What to say of the error.
    pub fn message(&self) -> (r: String)
        ensures
            r@ == self.text(),
    {
        match self {
            SelectError::NoneCached => {
                "No package.json found and no recent test directories cached".to_owned()
            },
            SelectError::NoneValid => {
                "No package.json found and no valid cached directories".to_owned()
            },
            SelectError::InvalidKey(c) => {
                let mut r: String = "Invalid selection: ".to_owned();
                r.push(*c);
                r
            },
        }
    }
}

/// The directories that may be offered: those run in last.
pub fn recent_directories(cache: &TestCache) -> (r: Result<Vec<String>, SelectError>)
    ensures
        cache@.len() == 0 ==> r == Err::<Vec<String>, SelectError>(SelectError::NoneCached),
        cache@.len() > 0 ==> (r matches Ok(dirs) && cache::is_recent(
            cache@,
            MAX_OFFERED as nat,
            text::texts(dirs@),
        )),
{
    let recent: Vec<String> = cache.get_recent_directories(MAX_OFFERED);
    assert(recent@.len() == text::texts(recent@).len());
    if recent.len() == 0 {
        Err(SelectError::NoneCached)
    } else {
        Ok(recent)
    }
}

/// Those of `dirs` for which `keep` says so, in order.
pub open spec fn kept(dirs: Seq<Seq<char>>, keep: Seq<bool>) -> Seq<Seq<char>>
    decreases dirs.len(),
{
    if dirs.len() == 0 {
        Seq::empty()
    } else if keep[dirs.len() - 1] {
        kept(dirs.drop_last(), keep).push(dirs.last())
    } else {
        kept(dirs.drop_last(), keep)
    }
}

/// Those of the directories that hold a package, as `has_package` says of each.
pub fn valid_directories(recent: &Vec<String>, has_package: &Vec<bool>) -> (r: Result<
    Vec<String>,
    SelectError,
>)
    requires
        recent@.len() == has_package@.len(),
    ensures
        r == Err::<Vec<String>, SelectError>(SelectError::NoneValid) <==> kept(
            text::texts(recent@),
            has_package@,
        ).len() == 0,
        r is Err ==> r == Err::<Vec<String>, SelectError>(SelectError::NoneValid),
        r matches Ok(dirs) ==> text::texts(dirs@) == kept(text::texts(recent@), has_package@),
{
    let ghost all = text::texts(recent@);
    let mut dirs: Vec<String> = Vec::new();
    let mut i: usize = 0;
    assert(text::texts(dirs@) =~= kept(all.take(0), has_package@));
    while i < recent.len()
        invariant
            i <= recent@.len(),
            recent@.len() == has_package@.len(),
            all == text::texts(recent@),
            text::texts(dirs@) == kept(all.take(i as int), has_package@),
        decreases recent@.len() - i,
    {
        assert(all.take(i + 1).drop_last() =~= all.take(i as int));
        let ghost before = text::texts(dirs@);
        if has_package[i] {
            dirs.push(recent[i].clone());
            assert(text::texts(dirs@) =~= before.push(all[i as int]));
        }
        i = i + 1;
    }
    assert(all.take(i as int) =~= all);
    assert(text::texts(dirs@).len() == dirs@.len());
    if dirs.len() == 0 {
        Err(SelectError::NoneValid)
    } else {
        Ok(dirs)
    }
}

/// One line for each directory: the key that selects it, and its name.
pub open spec fn menu_lines(dirs: Seq<Seq<char>>) -> Seq<char>
    decreases dirs.len(),
{
    if dirs.len() == 0 {
        Seq::empty()
    } else {
        menu_lines(dirs.drop_last()) + text::decimal((dirs.len() - 1) as nat) + "> "@ + dirs.last()
            + "\n"@
    }
}

/// The question which of the directories to take.
pub open spec fn menu_text(dirs: Seq<Seq<char>>) -> Seq<char> {
    "No package.json found. Select a recent directory:\n"@ + menu_lines(dirs) + "\nPress 0-"@
        + text::decimal(
        if dirs.len() > 0 {
            (dirs.len() - 1) as nat
        } else {
            0
        },
    ) + ": "@
}

/// The question which of the directories to take.
pub fn menu(dirs: &Vec<String>) -> (r: String)
    ensures
        r@ == menu_text(text::texts(dirs@)),
{
    let ghost all = text::texts(dirs@);
    let mut out: String = String::new();
    out.append("No package.json found. Select a recent directory:\n");
    let ghost head = out@;
    let mut i: usize = 0;
    assert(head + menu_lines(all.take(0)) =~= head);
    assert(out@ =~= "No package.json found. Select a recent directory:\n"@);
    while i < dirs.len()
        invariant
            i <= dirs@.len(),
            all == text::texts(dirs@),
            out@ == head + menu_lines(all.take(i as int)),
        decreases dirs@.len() - i,
    {
        assert(all.take(i + 1).drop_last() =~= all.take(i as int));
        text::push_numeral(&mut out, i as u64, 10);
        out.append("> ");
        out.append(dirs[i].as_str());
        out.append("\n");
        assert(out@ =~= head + menu_lines(all.take(i + 1)));
        i = i + 1;
    }
    assert(all.take(i as int) =~= all);
    out.append("\nPress 0-");
    let last: usize = if dirs.len() > 0 {
        dirs.len() - 1
    } else {
        0
    };
    text::push_numeral(&mut out, last as u64, 10);
    out.append(": ");
    assert(out@ =~= menu_text(all));
    out
}

/// The position that a key selects among `count` of them: that of its digit.
pub open spec fn selected(key: u8, count: nat) -> Option<nat> {
    if 0x30 <= key <= 0x39 && key - 0x30 < count {
        Some((key - 0x30) as nat)
    } else {
        None
    }
}

/// The position that a key selects among `count` of them.
pub fn select_digit(key: u8, count: usize) -> (r: Result<usize, SelectError>)
    ensures
        match selected(key, count as nat) {
            Some(i) => r == Ok::<usize, SelectError>(i as usize),
            None => r == Err::<usize, SelectError>(SelectError::InvalidKey(key as char)),
        },
{
    if 0x30 <= key && key <= 0x39 {
        let i: usize = (key - 0x30) as usize;
        if i < count {
            return Ok(i);
        }
    }
    Err(SelectError::InvalidKey(key as char))
}

proof fn lemma_kept_len(dirs: Seq<Seq<char>>, keep: Seq<bool>)
    ensures
        kept(dirs, keep).len() <= dirs.len(),
    decreases dirs.len(),
{
    if dirs.len() > 0 {
        lemma_kept_len(dirs.drop_last(), keep);
    }
}

proof fn lemma_kept_at(dirs: Seq<Seq<char>>, keep: Seq<bool>, i: int) -> (j: int)
    requires
        0 <= i < kept(dirs, keep).len(),
    ensures
        0 <= j < dirs.len(),
        keep[j],
        dirs[j] == kept(dirs, keep)[i],
    decreases dirs.len(),
{
    let rest = dirs.drop_last();
    if i < kept(rest, keep).len() {
        let j = lemma_kept_at(rest, keep, i);
        assert(dirs[j] == rest[j]);
        j
    } else {
        dirs.len() - 1
    }
}

/// Every directory that is offered can be selected with one key: its digit.
pub proof fn law_every_offer_has_a_key(
    m: Map<Seq<char>, cache::DirEntry>,
    recent: Seq<Seq<char>>,
    has_package: Seq<bool>,
    i: int,
)
    requires
        cache::is_recent(m, MAX_OFFERED as nat, recent),
        recent.len() == has_package.len(),
        0 <= i < kept(recent, has_package).len(),
    ensures
        i < 10,
        selected((0x30 + i) as u8, kept(recent, has_package).len()) == Some(i as nat),
{
    lemma_kept_len(recent, has_package);
}

/// Only directories that hold a package are offered.
pub proof fn law_only_packages_are_offered(
    recent: Seq<Seq<char>>,
    has_package: Seq<bool>,
    i: int,
)
    requires
        recent.len() == has_package.len(),
        0 <= i < kept(recent, has_package).len(),
    ensures
        exists|j: int|
            0 <= j < recent.len() && has_package[j] && #[trigger] recent[j] == kept(
                recent,
                has_package,
            )[i],
{
    let j = lemma_kept_at(recent, has_package, i);
    assert(recent[j] == kept(recent, has_package)[i]);
}

/// The menu asks its question, lists each directory on a line of its own behind its number, in
/// order from zero on, and says which keys there are.
pub proof fn law_menu_lists_each_directory(dirs: Seq<Seq<char>>)
    ensures
        menu_text(dirs) == "No package.json found. Select a recent directory:\n"@ + Seq::new(
            dirs.len(),
            |i: int| text::decimal(i as nat) + "> "@ + dirs[i] + "\n"@,
        ).flatten() + "\nPress 0-"@ + text::decimal(
            if dirs.len() == 0 {
                0
            } else {
                (dirs.len() - 1) as nat
            },
        ) + ": "@,
{
    lemma_menu_lines(dirs);
}

proof fn lemma_menu_lines(dirs: Seq<Seq<char>>)
    ensures
        menu_lines(dirs) == Seq::new(
            dirs.len(),
            |i: int| text::decimal(i as nat) + "> "@ + dirs[i] + "\n"@,
        ).flatten(),
    decreases dirs.len(),
{
    let lines = Seq::new(
        dirs.len(),
        |i: int| text::decimal(i as nat) + "> "@ + dirs[i] + "\n"@,
    );
    lines.lemma_flatten_and_flatten_alt_are_equivalent();
    if dirs.len() > 0 {
        let front = dirs.drop_last();
        let front_lines = Seq::new(
            front.len(),
            |i: int| text::decimal(i as nat) + "> "@ + front[i] + "\n"@,
        );
        lemma_menu_lines(front);
        assert(lines.drop_last() =~= front_lines);
        front_lines.lemma_flatten_and_flatten_alt_are_equivalent();
        let n = (dirs.len() - 1) as nat;
        assert(lines.last() == text::decimal(n) + "> "@ + dirs.last() + "\n"@);
        assert(menu_lines(dirs) =~= front_lines.flatten() + (text::decimal(n) + "> "@ + dirs.last()
            + "\n"@));
    }
}

/// The number shown in front of a directory is one key, and that key selects it.
pub proof fn law_shown_key_selects(dirs: Seq<Seq<char>>, i: int)
    requires
        0 <= i < dirs.len(),
        i < 10,
    ensures
        text::decimal(i as nat).len() == 1,
        text::decimal(i as nat)[0] as u32 <= 0x7f,
        selected(text::decimal(i as nat)[0] as u8, dirs.len()) == Some(i as nat),
        exists|a: Seq<char>, b: Seq<char>|
            menu_text(dirs) == #[trigger] (a + (seq!['\n'] + text::decimal(i as nat) + "> "@
                + dirs[i] + "\n"@) + b),
{
    text::law_numeral_by_division(i as nat, 10);
    reveal_strlit("0123456789abcdef");
    let d = text::decimal(i as nat);
    vstd::arithmetic::div_mod::lemma_small_mod(i as nat, 10);
    assert(d.drop_last().len() == 0);
    assert(d[0] == d.last());
    assert(d[0] as u32 == 0x30 + i);
    let (front, back) = lemma_menu_line_at(dirs, i);
    let a = lemma_line_end(front);
    let tail = back + "\nPress 0-"@ + text::decimal((dirs.len() - 1) as nat) + ": "@;
    let line = text::decimal(i as nat) + "> "@ + dirs[i] + "\n"@;
    let head = "No package.json found. Select a recent directory:\n"@;
    assert(menu_text(dirs) =~= (head + front) + line + tail);
    assert((a + seq!['\n']) + line + tail =~= a + (seq!['\n'] + text::decimal(i as nat) + "> "@ + dirs[i]
        + "\n"@) + tail);
}

/// What stands in front of a line of the list, with the question before it, ends with a newline.
proof fn lemma_line_end(front: Seq<char>) -> (r: Seq<char>)
    requires
        front.len() > 0 ==> front.last() == '\n',
    ensures
        "No package.json found. Select a recent directory:\n"@ + front == r + seq!['\n'],
{
    reveal_strlit("No package.json found. Select a recent directory:\n");
    let s = "No package.json found. Select a recent directory:\n"@ + front;
    assert(s.last() == '\n');
    assert(s =~= s.drop_last() + seq!['\n']);
    s.drop_last()
}

proof fn lemma_menu_line_at(dirs: Seq<Seq<char>>, i: int) -> (r: (Seq<char>, Seq<char>))
    requires
        0 <= i < dirs.len(),
    ensures
        menu_lines(dirs) == r.0 + (text::decimal(i as nat) + "> "@ + dirs[i] + "\n"@) + r.1,
        r.0.len() > 0 ==> r.0.last() == '\n',
    decreases dirs.len(),
{
    let front = dirs.drop_last();
    let n = (dirs.len() - 1) as nat;
    let last = text::decimal(n) + "> "@ + dirs.last() + "\n"@;
    assert(menu_lines(dirs) =~= menu_lines(front) + last);
    if i == dirs.len() - 1 {
        let r = (menu_lines(front), Seq::<char>::empty());
        if front.len() > 0 {
            reveal_strlit("\n");
            assert(menu_lines(front).last() == '\n');
        }
        assert(menu_lines(dirs) =~= r.0 + (text::decimal(i as nat) + "> "@ + dirs[i] + "\n"@)
            + r.1);
        r
    } else {
        let (a, b) = lemma_menu_line_at(front, i);
        assert(menu_lines(dirs) =~= a + (text::decimal(i as nat) + "> "@ + dirs[i] + "\n"@) + (b
            + last));
        (a, b + last)
    }
}

/// A key selects a directory just where it is the digit of its place, and there is one at that
/// place.
pub proof fn law_key_is_the_digit_of_the_place(key: u8, count: nat, i: nat)
    ensures
        selected(key, count) == Some(i) <==> key == 0x30 + i && i < 10 && i < count,
{
}

/// Of the directories just those that hold a package are offered, each as often as it was there
/// and in the same order.
pub proof fn law_packages_are_offered_in_order(dirs: Seq<Seq<char>>, keep: Seq<bool>)
    requires
        dirs.len() == keep.len(),
    ensures
        kept(dirs, keep) == Seq::new(dirs.len(), |i: int| (dirs[i], keep[i])).filter(
            |p: (Seq<char>, bool)| p.1,
        ).map_values(|p: (Seq<char>, bool)| p.0),
        forall|i: int|
            0 <= i < dirs.len() && keep[i] ==> kept(dirs, keep).contains(#[trigger] dirs[i]),
{
    lemma_kept_is_filter(dirs, keep);
    assert forall|i: int| 0 <= i < dirs.len() && keep[i] implies kept(dirs, keep).contains(
        #[trigger] dirs[i],
    ) by {
        lemma_kept_holds(dirs, keep, i);
    }
}

proof fn lemma_kept_holds(dirs: Seq<Seq<char>>, keep: Seq<bool>, i: int)
    requires
        0 <= i < dirs.len(),
        keep[i],
    ensures
        kept(dirs, keep).contains(dirs[i]),
    decreases dirs.len(),
{
    let rest = dirs.drop_last();
    let all = kept(dirs, keep);
    if i == dirs.len() - 1 {
        assert(all[all.len() - 1] == dirs[i]);
    } else {
        lemma_kept_holds(rest, keep, i);
        let j = choose|j: int|
            0 <= j < kept(rest, keep).len() && kept(rest, keep)[j] == rest[i];
        assert(all[j] == dirs[i]);
    }
}

proof fn lemma_kept_is_filter(dirs: Seq<Seq<char>>, keep: Seq<bool>)
    requires
        dirs.len() <= keep.len(),
    ensures
        kept(dirs, keep) == Seq::new(dirs.len(), |i: int| (dirs[i], keep[i])).filter(
            |p: (Seq<char>, bool)| p.1,
        ).map_values(|p: (Seq<char>, bool)| p.0),
    decreases dirs.len(),
{
    let pairs = Seq::new(dirs.len(), |i: int| (dirs[i], keep[i]));
    let chosen = |p: (Seq<char>, bool)| p.1;
    let name = |p: (Seq<char>, bool)| p.0;
    reveal(Seq::filter);
    if dirs.len() > 0 {
        let rest = dirs.drop_last();
        let rest_pairs = Seq::new(rest.len(), |i: int| (rest[i], keep[i]));
        lemma_kept_is_filter(rest, keep);
        assert(pairs.drop_last() =~= rest_pairs);
        let before = rest_pairs.filter(chosen);
        assert(pairs.filter(chosen).map_values(name) =~= if keep[dirs.len() - 1] {
            before.map_values(name).push(dirs.last())
        } else {
            before.map_values(name)
        });
    } else {
        assert(pairs.filter(chosen).map_values(name) =~= kept(dirs, keep));
    }
}

/// The message of an error says what is wrong; where a key was no choice, it names the key.
pub proof fn law_errors_say_what_is_wrong(c: char)
    ensures
        SelectError::NoneCached.text()
            == "No package.json found and no recent test directories cached"@,
        SelectError::NoneValid.text() == "No package.json found and no valid cached directories"@,
        SelectError::InvalidKey(c).text() == "Invalid selection: "@ + seq![c],
{
    assert(SelectError::InvalidKey(c).text() =~= "Invalid selection: "@ + seq![c]);
}

} // verus!
