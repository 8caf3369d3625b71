//! What is remembered of earlier runs: for each directory, how many tests it has and when they
//! were last run.

use crate::paths;
use crate::text;
use vstd::prelude::*;

verus! {

/// What is remembered of one directory.
#[derive(Clone, Copy, Debug, PartialEq, Eq)]
pub struct DirEntry {
    pub test_count: u32,
    /// Seconds since the Unix epoch.
    pub last_run: u64,
}

/// The directories that have been run in, each with what is remembered of it.
pub struct TestCache {
    directories: Vec<(String, DirEntry)>,
}

/// No directory is named twice.
pub open spec fn distinct(entries: Seq<(String, DirEntry)>) -> bool {
    forall|i: int, j: int|
        0 <= i < j < entries.len() ==> #[trigger] entries[i].0@ != #[trigger] entries[j].0@
}

/// The directories that a list names; of two entries for one directory the later one counts.
pub open spec fn by_name(entries: Seq<(String, DirEntry)>) -> Map<Seq<char>, DirEntry>
    decreases entries.len(),
{
    if entries.len() == 0 {
        Map::empty()
    } else {
        by_name(entries.drop_last()).insert(entries.last().0@, entries.last().1)
    }
}

/// The time to remember: a clock that stands before the epoch counts as the epoch.
pub open spec fn timestamp(since_epoch: Option<u64>) -> u64 {
    match since_epoch {
        Some(seconds) => seconds,
        None => 0,
    }
}

/// How many tests a directory had when they were last counted.
pub open spec fn expected_tests(m: Map<Seq<char>, DirEntry>, dir: Seq<char>) -> Option<u32> {
    if m.contains_key(dir) {
        Some(m[dir].test_count)
    } else {
        None
    }
}

/// The directories, with the number of tests of one of them counted now.
pub open spec fn with_count(
    m: Map<Seq<char>, DirEntry>,
    dir: Seq<char>,
    count: u32,
    since_epoch: Option<u64>,
) -> Map<Seq<char>, DirEntry> {
    m.insert(dir, DirEntry { test_count: count, last_run: timestamp(since_epoch) })
}

/// The directories, with one of them run in now; its number of tests stays, and is zero where
/// none is known.
pub open spec fn touched(
    m: Map<Seq<char>, DirEntry>,
    dir: Seq<char>,
    since_epoch: Option<u64>,
) -> Map<Seq<char>, DirEntry> {
    let count = match expected_tests(m, dir) {
        Some(count) => count,
        None => 0,
    };
    m.insert(dir, DirEntry { test_count: count, last_run: timestamp(since_epoch) })
}

proof fn lemma_by_name(entries: Seq<(String, DirEntry)>)
    requires
        distinct(entries),
    ensures
        forall|i: int|
            0 <= i < entries.len() ==> by_name(entries).contains_key(#[trigger] entries[i].0@)
                && by_name(entries)[entries[i].0@] == entries[i].1,
        forall|k: Seq<char>| #[trigger]
            by_name(entries).contains_key(k) ==> exists|i: int|
                0 <= i < entries.len() && #[trigger] entries[i].0@ == k,
        by_name(entries).dom().finite(),
        by_name(entries).len() == entries.len(),
    decreases entries.len(),
{
    if entries.len() > 0 {
        let rest = entries.drop_last();
        let n = entries.len() - 1;
        assert forall|i: int, j: int| 0 <= i < j < rest.len() implies #[trigger] rest[i].0@
            != #[trigger] rest[j].0@ by {
            assert(rest[i] == entries[i] && rest[j] == entries[j]);
        }
        lemma_by_name(rest);
        assert forall|i: int| 0 <= i < entries.len() implies by_name(entries).contains_key(
            #[trigger] entries[i].0@,
        ) && by_name(entries)[entries[i].0@] == entries[i].1 by {
            if i < n {
                assert(rest[i] == entries[i]);
                assert(entries[i].0@ != entries[n].0@);
            }
        }
        assert forall|k: Seq<char>| #[trigger] by_name(entries).contains_key(k) implies exists|
            i: int,
        |
            0 <= i < entries.len() && #[trigger] entries[i].0@ == k by {
            if k == entries[n].0@ {
            } else {
                assert(by_name(rest).contains_key(k));
                let i = choose|i: int| 0 <= i < rest.len() && #[trigger] rest[i].0@ == k;
                assert(entries[i].0@ == k);
            }
        }
        if by_name(rest).contains_key(entries[n].0@) {
            let i = choose|i: int|
                0 <= i < rest.len() && #[trigger] rest[i].0@ == entries[n].0@;
            assert(entries[i].0@ == entries[n].0@);
        }
    }
}

proof fn lemma_replace(entries: Seq<(String, DirEntry)>, i: int, name: String, e: DirEntry)
    requires
        distinct(entries),
        0 <= i < entries.len(),
        name@ == entries[i].0@,
    ensures
        distinct(entries.update(i, (name, e))),
        by_name(entries.update(i, (name, e))) == by_name(entries).insert(name@, e),
{
    let new = entries.update(i, (name, e));
    assert forall|a: int, b: int| 0 <= a < b < new.len() implies #[trigger] new[a].0@
        != #[trigger] new[b].0@ by {
        assert(new[a].0@ == entries[a].0@ && new[b].0@ == entries[b].0@);
    }
    lemma_by_name(entries);
    lemma_by_name(new);
    let want = by_name(entries).insert(name@, e);
    assert forall|k: Seq<char>| by_name(new).contains_key(k) <==> want.contains_key(k) by {
        if by_name(new).contains_key(k) {
            let j = choose|j: int| 0 <= j < new.len() && #[trigger] new[j].0@ == k;
            assert(entries[j].0@ == k);
        }
        if want.contains_key(k) && k != name@ {
            let j = choose|j: int| 0 <= j < entries.len() && #[trigger] entries[j].0@ == k;
            assert(new[j].0@ == k);
        }
        assert(new[i].0@ == name@);
    }
    assert forall|k: Seq<char>| by_name(new).contains_key(k) implies by_name(new)[k] == want[k] by {
        let j = choose|j: int| 0 <= j < new.len() && #[trigger] new[j].0@ == k;
        assert(entries[j].0@ == k);
        assert(new[i].0@ == name@);
    }
    assert(by_name(new) =~= want);
}

proof fn lemma_append(entries: Seq<(String, DirEntry)>, name: String, e: DirEntry)
    requires
        distinct(entries),
        forall|i: int| 0 <= i < entries.len() ==> #[trigger] entries[i].0@ != name@,
    ensures
        distinct(entries.push((name, e))),
        by_name(entries.push((name, e))) == by_name(entries).insert(name@, e),
{
    assert(entries.push((name, e)).drop_last() =~= entries);
}

/// `r` lists directories from the latest run on: `limit` of them, or all where there are fewer,
/// and none that is left out was run after one that is listed.
pub open spec fn is_recent(
    m: Map<Seq<char>, DirEntry>,
    limit: nat,
    r: Seq<Seq<char>>,
) -> bool {
    &&& r.len() == if limit <= m.len() {
        limit
    } else {
        m.len()
    }
    &&& r.no_duplicates()
    &&& forall|i: int| 0 <= i < r.len() ==> m.contains_key(#[trigger] r[i])
    &&& forall|i: int, j: int|
        0 <= i < j < r.len() ==> m[#[trigger] r[i]].last_run >= m[#[trigger] r[j]].last_run
    &&& forall|k: Seq<char>, i: int|
        #![trigger m.contains_key(k), r[i]]
        0 <= i < r.len() && m.contains_key(k) && !r.contains(k) ==> m[k].last_run
            <= m[r[i]].last_run
}

/// `rest` and `picks` share out the positions of `entries`; `picks` goes from the latest run on,
/// and holds nothing that was run before one of `rest`.
spec fn shared_out(entries: Seq<(String, DirEntry)>, rest: Seq<usize>, picks: Seq<usize>) -> bool {
    &&& rest.len() + picks.len() == entries.len()
    &&& rest.no_duplicates()
    &&& picks.no_duplicates()
    &&& forall|a: int| 0 <= a < rest.len() ==> #[trigger] rest[a] < entries.len()
    &&& forall|b: int| 0 <= b < picks.len() ==> #[trigger] picks[b] < entries.len()
    &&& forall|a: int, b: int|
        0 <= a < rest.len() && 0 <= b < picks.len() ==> #[trigger] rest[a] != #[trigger] picks[b]
            && entries[rest[a] as int].1.last_run <= entries[picks[b] as int].1.last_run
    &&& forall|b: int, c: int|
        0 <= b < c < picks.len() ==> entries[#[trigger] picks[b] as int].1.last_run
            >= entries[#[trigger] picks[c] as int].1.last_run
    &&& forall|i: usize|
        #![trigger rest.contains(i)]
        #![trigger picks.contains(i)]
        i < entries.len() ==> rest.contains(i) || picks.contains(i)
}

proof fn lemma_pick(
    entries: Seq<(String, DirEntry)>,
    rest: Seq<usize>,
    picks: Seq<usize>,
    p: int,
)
    requires
        shared_out(entries, rest, picks),
        0 <= p < rest.len(),
        forall|a: int|
            0 <= a < rest.len() ==> entries[#[trigger] rest[a] as int].1.last_run
                <= entries[rest[p] as int].1.last_run,
    ensures
        shared_out(entries, rest.remove(p), picks.push(rest[p])),
{
    let x = rest[p];
    let rest2 = rest.remove(p);
    let picks2 = picks.push(x);
    assert forall|a: int| 0 <= a < rest2.len() implies #[trigger] rest2[a] == (if a < p {
        rest[a]
    } else {
        rest[a + 1]
    }) && rest2[a] != x by {}
    assert(rest2.no_duplicates());
    assert(picks2.no_duplicates());
    assert forall|i: usize|
        #![trigger rest2.contains(i)]
        #![trigger picks2.contains(i)]
        i < entries.len() implies rest2.contains(i) || picks2.contains(i) by {
        if rest.contains(i) {
            let a = choose|a: int| 0 <= a < rest.len() && rest[a] == i;
            if a < p {
                assert(rest2[a] == i);
            } else if a > p {
                assert(rest2[a - 1] == i);
            } else {
                assert(picks2[picks.len() as int] == i);
            }
        } else {
            let b = choose|b: int| 0 <= b < picks.len() && picks[b] == i;
            assert(picks2[b] == i);
        }
    }
}

proof fn lemma_recent(
    entries: Seq<(String, DirEntry)>,
    rest: Seq<usize>,
    picks: Seq<usize>,
    limit: nat,
    r: Seq<Seq<char>>,
)
    requires
        distinct(entries),
        entries.len() <= usize::MAX,
        shared_out(entries, rest, picks),
        picks.len() <= limit,
        picks.len() == limit || rest.len() == 0,
        r.len() == picks.len(),
        forall|i: int| 0 <= i < r.len() ==> #[trigger] r[i] == entries[picks[i] as int].0@,
    ensures
        is_recent(by_name(entries), limit, r),
{
    let m = by_name(entries);
    lemma_by_name(entries);
    assert forall|i: int| 0 <= i < r.len() implies m.contains_key(#[trigger] r[i])
        && m[r[i]] == entries[picks[i] as int].1 by {
        assert(entries[picks[i] as int].0@ == r[i]);
    }
    assert forall|i: int, j: int| 0 <= i < j < r.len() implies r[i] != r[j] && m[#[trigger] r[i]].last_run
        >= m[#[trigger] r[j]].last_run by {
        let (a, b) = (picks[i], picks[j]);
        assert(a != b);
        if a < b {
            assert(entries[a as int].0@ != entries[b as int].0@);
        } else {
            assert(entries[b as int].0@ != entries[a as int].0@);
        }
    }
    assert forall|k: Seq<char>, i: int|
        #![trigger m.contains_key(k), r[i]]
        0 <= i < r.len() && m.contains_key(k) && !r.contains(k) implies m[k].last_run
        <= m[r[i]].last_run by {
        let x = choose|x: int| 0 <= x < entries.len() && #[trigger] entries[x].0@ == k;
        assert(entries[x].0@ == k);
        if picks.contains(x as usize) {
            let b = choose|b: int| 0 <= b < picks.len() && picks[b] == x as usize;
            assert(r[b] == k);
        }
        assert(rest.contains(x as usize));
        let a = choose|a: int| 0 <= a < rest.len() && rest[a] == x as usize;
        assert(rest[a] != picks[i]);
    }
}

impl View for TestCache {
    type V = Map<Seq<char>, DirEntry>;

    closed spec fn view(&self) -> Map<Seq<char>, DirEntry> {
        by_name(self.directories@)
    }
}

impl Default for TestCache {
    fn default() -> (r: Self)
        ensures
            r@ == Map::<Seq<char>, DirEntry>::empty(),
    {
        TestCache { directories: Vec::new() }
    }
}

impl TestCache {
    #[verifier::type_invariant]
    spec fn inv(self) -> bool {
        distinct(self.directories@)
    }

    fn position(&self, dir: &str) -> (r: Option<usize>)
        ensures
            r matches Some(i) ==> i < self.directories@.len() && self.directories@[i as int].0@
                == dir@ && self@.contains_key(dir@) && self@[dir@] == self.directories@[i as int].1,
            r is None ==> !self@.contains_key(dir@) && forall|i: int|
                0 <= i < self.directories@.len() ==> #[trigger] self.directories@[i].0@ != dir@,
    {
        proof {
            use_type_invariant(self);
            lemma_by_name(self.directories@);
        }
        let key: String = dir.to_owned();
        let mut i: usize = 0;
        while i < self.directories.len()
            invariant
                i <= self.directories@.len(),
                key@ == dir@,
                forall|j: int| 0 <= j < i ==> #[trigger] self.directories@[j].0@ != dir@,
            decreases self.directories@.len() - i,
        {
            if self.directories[i].0 == key {
                proof {
                    use_type_invariant(self);
                    lemma_by_name(self.directories@);
                }
                return Some(i);
            }
            i = i + 1;
        }
        None
    }

    fn put(&mut self, dir: &str, entry: DirEntry)
        ensures
            final(self)@ == old(self)@.insert(dir@, entry),
    {
        proof {
            use_type_invariant(&*self);
        }
        let found: Option<usize> = self.position(dir);
        let name: String = dir.to_owned();
        let mut entries: Vec<(String, DirEntry)> = Vec::new();
        std::mem::swap(&mut entries, &mut self.directories);
        match found {
            Some(i) => {
                proof {
                    lemma_replace(entries@, i as int, name, entry);
                }
                entries.set(i, (name, entry));
            },
            None => {
                proof {
                    lemma_append(entries@, name, entry);
                }
                entries.push((name, entry));
            },
        }
        self.directories = entries;
    }

    /// The path of the file that holds the cache.
    pub fn cache_path() -> (r: Vec<u8>)
        ensures
            exists|dir: Option<Seq<u8>>|
                paths::is_user_dir(dir) && r@ == #[trigger] paths::cache_file(dir),
    {
        paths::cache_path_in(paths::user_cache_dir())
    }

    /// The cache that stored entries make; where nothing could be read, an empty one.
    pub fn load(stored: Option<Vec<(String, DirEntry)>>) -> (r: TestCache)
        ensures
            r@ == (match stored {
                Some(entries) => by_name(entries@),
                None => Map::empty(),
            }),
            r@.dom().finite(),
    {
        let mut cache: TestCache = TestCache::default();
        match stored {
            Some(entries) => {
                let mut i: usize = 0;
                while i < entries.len()
                    invariant
                        i <= entries@.len(),
                        cache@ == by_name(entries@.take(i as int)),
                    decreases entries@.len() - i,
                {
                    assert(entries@.take(i + 1).drop_last() =~= entries@.take(i as int));
                    cache.put(entries[i].0.as_str(), entries[i].1);
                    i = i + 1;
                }
                assert(entries@.take(i as int) =~= entries@);
            },
            None => {},
        }
        proof {
            use_type_invariant(&cache);
            lemma_by_name(cache.directories@);
        }
        cache
    }

    /// The entries to store, one for each directory.
    pub fn save(&self) -> (r: &Vec<(String, DirEntry)>)
        ensures
            by_name(r@) == self@,
            distinct(r@),
            self@.dom().finite(),
    {
        proof {
            use_type_invariant(self);
            lemma_by_name(self.directories@);
        }
        &self.directories
    }

    /// How many tests the directory had when they were last counted.
    pub fn get_expected_tests(&self, dir: &str) -> (r: Option<u32>)
        ensures
            r == expected_tests(self@, dir@),
    {
        match self.position(dir) {
            Some(i) => Some(self.directories[i].1.test_count),
            None => None,
        }
    }

    /// Remembers how many tests the directory has, and that they were run now.
    pub fn set_expected_tests(&mut self, dir: &str, count: u32, since_epoch: Option<u64>)
        ensures
            final(self)@ == with_count(old(self)@, dir@, count, since_epoch),
            old(self)@.dom().finite(),
            final(self)@.dom().finite(),
    {
        proof {
            use_type_invariant(&*self);
            lemma_by_name(self.directories@);
        }
        let now: u64 = since_epoch.unwrap_or(0);
        self.put(dir, DirEntry { test_count: count, last_run: now });
    }

    /// Remembers that the directory was run in now, and keeps its number of tests.
    pub fn touch(&mut self, dir: &str, since_epoch: Option<u64>)
        ensures
            final(self)@ == touched(old(self)@, dir@, since_epoch),
            old(self)@.dom().finite(),
            final(self)@.dom().finite(),
    {
        proof {
            use_type_invariant(&*self);
            lemma_by_name(self.directories@);
        }
        let now: u64 = since_epoch.unwrap_or(0);
        let count: u32 = self.get_expected_tests(dir).unwrap_or(0);
        self.put(dir, DirEntry { test_count: count, last_run: now });
    }

    /// The directories that were run in last, from the latest on; at most `limit` of them.
    pub fn get_recent_directories(&self, limit: usize) -> (r: Vec<String>)
        ensures
            is_recent(self@, limit as nat, text::texts(r@)),
            self@.dom().finite(),
    {
        proof {
            use_type_invariant(self);
            lemma_by_name(self.directories@);
        }
        let n: usize = self.directories.len();
        let mut rest: Vec<usize> = Vec::new();
        let mut i: usize = 0;
        while i < n
            invariant
                i <= n,
                rest@.len() == i,
                forall|a: int| 0 <= a < i ==> #[trigger] rest@[a] == a,
            decreases n - i,
        {
            rest.push(i);
            i = i + 1;
        }
        let mut picks: Vec<usize> = Vec::new();
        let mut out: Vec<String> = Vec::new();
        assert forall|i: usize| i < n implies #[trigger] rest@.contains(i) by {
            assert(rest@[i as int] == i);
        }
        while out.len() < limit && rest.len() > 0
            invariant
                shared_out(self.directories@, rest@, picks@),
                out@.len() == picks@.len(),
                out@.len() <= limit,
                forall|i: int|
                    0 <= i < out@.len() ==> #[trigger] out@[i]@
                        == self.directories@[picks@[i] as int].0@,
            decreases rest@.len(),
        {
            let mut p: usize = 0;
            let mut a: usize = 1;
            while a < rest.len()
                invariant
                    p < a <= rest@.len(),
                    shared_out(self.directories@, rest@, picks@),
                    forall|b: int|
                        0 <= b < a ==> self.directories@[#[trigger] rest@[b] as int].1.last_run
                            <= self.directories@[rest@[p as int] as int].1.last_run,
                decreases rest@.len() - a,
            {
                assert(rest@[a as int] < self.directories@.len());
                assert(rest@[p as int] < self.directories@.len());
                if self.directories[rest[a]].1.last_run > self.directories[rest[p]].1.last_run {
                    p = a;
                }
                a = a + 1;
            }
            proof {
                lemma_pick(self.directories@, rest@, picks@, p as int);
            }
            assert(rest@[p as int] < self.directories@.len());
            let x: usize = rest.remove(p);
            picks.push(x);
            out.push(self.directories[x].0.clone());
        }
        proof {
            lemma_recent(self.directories@, rest@, picks@, limit as nat, text::texts(out@));
        }
        out
    }
}

/// A number of tests that is set is the one given back, and no other directory is affected.
pub proof fn law_count_is_given_back(
    m: Map<Seq<char>, DirEntry>,
    dir: Seq<char>,
    count: u32,
    since_epoch: Option<u64>,
    other: Seq<char>,
)
    ensures
        expected_tests(with_count(m, dir, count, since_epoch), dir) == Some(count),
        other != dir ==> expected_tests(with_count(m, dir, count, since_epoch), other)
            == expected_tests(m, other),
{
}

/// To run in a directory changes no number of tests.
pub proof fn law_touch_keeps_counts(
    m: Map<Seq<char>, DirEntry>,
    dir: Seq<char>,
    since_epoch: Option<u64>,
    other: Seq<char>,
)
    ensures
        m.contains_key(other) ==> expected_tests(touched(m, dir, since_epoch), other)
            == expected_tests(m, other),
        !m.contains_key(dir) ==> expected_tests(touched(m, dir, since_epoch), dir) == Some(0u32),
{
}

/// The directory that was run in after all others is the first of those listed.
pub proof fn law_latest_run_is_listed_first(
    m: Map<Seq<char>, DirEntry>,
    dir: Seq<char>,
    since_epoch: Option<u64>,
    limit: nat,
    r: Seq<Seq<char>>,
)
    requires
        m.dom().finite(),
        limit > 0,
        forall|k: Seq<char>|
            m.contains_key(k) && k != dir ==> (#[trigger] m[k]).last_run < timestamp(since_epoch),
        is_recent(touched(m, dir, since_epoch), limit, r),
    ensures
        r.len() > 0,
        r[0] == dir,
{
    lemma_latest_is_first(m, dir, touched(m, dir, since_epoch)[dir], limit, r);
}

/// The directory whose tests were counted after all others were run in is the first of those
/// listed.
pub proof fn law_latest_count_is_listed_first(
    m: Map<Seq<char>, DirEntry>,
    dir: Seq<char>,
    count: u32,
    since_epoch: Option<u64>,
    limit: nat,
    r: Seq<Seq<char>>,
)
    requires
        m.dom().finite(),
        limit > 0,
        forall|k: Seq<char>|
            m.contains_key(k) && k != dir ==> (#[trigger] m[k]).last_run < timestamp(since_epoch),
        is_recent(with_count(m, dir, count, since_epoch), limit, r),
    ensures
        r.len() > 0,
        r[0] == dir,
{
    lemma_latest_is_first(m, dir, with_count(m, dir, count, since_epoch)[dir], limit, r);
}

proof fn lemma_latest_is_first(
    m: Map<Seq<char>, DirEntry>,
    dir: Seq<char>,
    entry: DirEntry,
    limit: nat,
    r: Seq<Seq<char>>,
)
    requires
        m.dom().finite(),
        limit > 0,
        forall|k: Seq<char>|
            m.contains_key(k) && k != dir ==> (#[trigger] m[k]).last_run < entry.last_run,
        is_recent(m.insert(dir, entry), limit, r),
    ensures
        r.len() > 0,
        r[0] == dir,
{
    let t = m.insert(dir, entry);
    assert(t.dom().contains(dir));
    assert(t.dom() =~= m.dom().insert(dir));
    assert(t.dom().remove(dir).len() + 1 == t.len());
    assert(t.contains_key(r[0]));
    if r[0] != dir {
        assert(m.contains_key(r[0]));
        assert(m[r[0]].last_run < entry.last_run);
        if r.contains(dir) {
            let i = choose|i: int| 0 <= i < r.len() && r[i] == dir;
            assert(t[r[0]].last_run >= t[r[i]].last_run);
        } else {
            assert(t.contains_key(dir));
            assert(t[dir].last_run <= t[r[0]].last_run);
        }
    }
}

/// A cache that was stored can be loaded back, in whatever order its entries come.
pub proof fn law_order_makes_no_difference(
    stored: Seq<(String, DirEntry)>,
    loaded: Seq<(String, DirEntry)>,
)
    requires
        distinct(stored),
        stored.len() == loaded.len(),
        forall|i: int|
            0 <= i < stored.len() ==> exists|j: int|
                0 <= j < loaded.len() && (#[trigger] loaded[j]).0@ == (#[trigger] stored[i]).0@
                    && loaded[j].1 == stored[i].1,
        distinct(loaded),
    ensures
        by_name(loaded) == by_name(stored),
{
    lemma_by_name(stored);
    lemma_by_name(loaded);
    let (a, b) = (by_name(stored), by_name(loaded));
    assert forall|k: Seq<char>| a.contains_key(k) implies b.contains_key(k) && b[k] == a[k] by {
        let i = choose|i: int| 0 <= i < stored.len() && #[trigger] stored[i].0@ == k;
        assert(stored[i].0@ == k);
        let j = choose|j: int|
            0 <= j < loaded.len() && (#[trigger] loaded[j]).0@ == stored[i].0@ && loaded[j].1
                == stored[i].1;
        assert(loaded[j].0@ == k);
    }
    assert(a.dom().subset_of(b.dom()));
    vstd::set_lib::lemma_subset_equality(a.dom(), b.dom());
    assert(a =~= b);
}

/// What is remembered of a directory whose tests are counted is the count and the time, and of all
/// others what it was; a clock before the epoch counts as the epoch.
pub proof fn law_count_and_time_are_remembered(
    m: Map<Seq<char>, DirEntry>,
    dir: Seq<char>,
    count: u32,
    seconds: u64,
    other: Seq<char>,
)
    ensures
        with_count(m, dir, count, Some(seconds)).contains_key(dir),
        with_count(m, dir, count, Some(seconds))[dir].test_count == count,
        with_count(m, dir, count, Some(seconds))[dir].last_run == seconds,
        with_count(m, dir, count, None) == with_count(m, dir, count, Some(0)),
        other != dir ==> with_count(m, dir, count, Some(seconds)).contains_key(other)
            == m.contains_key(other),
        other != dir && m.contains_key(other) ==> with_count(m, dir, count, Some(seconds))[other]
            == m[other],
{
}

/// What is remembered of a directory that is run in is the time, and its count as it was, or zero
/// where there was none; and of all others what it was.
pub proof fn law_time_of_a_run_is_remembered(
    m: Map<Seq<char>, DirEntry>,
    dir: Seq<char>,
    seconds: u64,
    other: Seq<char>,
)
    ensures
        touched(m, dir, Some(seconds)).contains_key(dir),
        touched(m, dir, Some(seconds))[dir].last_run == seconds,
        touched(m, dir, Some(seconds))[dir].test_count == if m.contains_key(dir) {
            m[dir].test_count
        } else {
            0
        },
        touched(m, dir, None) == touched(m, dir, Some(0)),
        other != dir ==> touched(m, dir, Some(seconds)).contains_key(other) == m.contains_key(
            other,
        ),
        other != dir && m.contains_key(other) ==> touched(m, dir, Some(seconds))[other] == m[other],
{
}

/// The count of a directory is the one remembered, and there is none where nothing is.
pub proof fn law_expected_is_what_is_remembered(m: Map<Seq<char>, DirEntry>, dir: Seq<char>, n: u32)
    ensures
        expected_tests(m, dir) == Some(n) <==> m.contains_key(dir) && m[dir].test_count == n,
{
}

/// Each directory that is listed is remembered and listed once; none that was run in later stands
/// behind it or is left out; and as many are listed as there are and as are asked for.
pub proof fn law_recent_directories_are_listed(
    m: Map<Seq<char>, DirEntry>,
    limit: nat,
    r: Seq<Seq<char>>,
    i: int,
    j: int,
    k: Seq<char>,
)
    requires
        is_recent(m, limit, r),
        0 <= i < r.len(),
    ensures
        m.contains_key(r[i]),
        i < j < r.len() ==> r[i] != r[j] && m[r[i]].last_run >= m[r[j]].last_run,
        m.contains_key(k) && m[k].last_run > m[r[i]].last_run ==> r.contains(k),
        r.len() <= limit,
        r.len() <= m.len(),
        r.len() == limit || r.len() == m.len(),
{
    if m.contains_key(k) && !r.contains(k) {
        assert(m[k].last_run <= m[r[i]].last_run);
    }
}

/// No directory is listed just where none is remembered or none is asked for.
pub proof fn law_nothing_is_listed_of_nothing(
    m: Map<Seq<char>, DirEntry>,
    limit: nat,
    r: Seq<Seq<char>>,
)
    requires
        is_recent(m, limit, r),
    ensures
        r.len() == 0 <==> limit == 0 || m.len() == 0,
{
}

/// Of stored entries each one counts that no later one for the same directory replaces, and no
/// directory comes from anything else.
pub proof fn law_last_entry_counts(
    before: Seq<(String, DirEntry)>,
    entry: (String, DirEntry),
    after: Seq<(String, DirEntry)>,
    k: Seq<char>,
)
    requires
        forall|i: int| 0 <= i < after.len() ==> (#[trigger] after[i]).0@ != entry.0@,
    ensures
        by_name(before.push(entry) + after).contains_key(entry.0@),
        by_name(before.push(entry) + after)[entry.0@] == entry.1,
        by_name(before).contains_key(k) <==> exists|i: int|
            0 <= i < before.len() && (#[trigger] before[i]).0@ == k,
    decreases after.len(),
{
    lemma_named(before, k);
    let all = before.push(entry) + after;
    if after.len() == 0 {
        assert(all =~= before.push(entry));
        assert(all.drop_last() =~= before);
    } else {
        let front = after.drop_last();
        assert(all.drop_last() =~= before.push(entry) + front);
        assert forall|i: int| 0 <= i < front.len() implies (#[trigger] front[i]).0@ != entry.0@ by {
            assert(front[i] == after[i]);
        }
        assert(after[after.len() - 1].0@ != entry.0@);
        law_last_entry_counts(before, entry, front, k);
    }
}

proof fn lemma_named(entries: Seq<(String, DirEntry)>, k: Seq<char>)
    ensures
        by_name(entries).contains_key(k) <==> exists|i: int|
            0 <= i < entries.len() && (#[trigger] entries[i]).0@ == k,
    decreases entries.len(),
{
    if entries.len() > 0 {
        let front = entries.drop_last();
        lemma_named(front, k);
        assert(entries[entries.len() - 1] == entries.last());
        if exists|i: int| 0 <= i < front.len() && (#[trigger] front[i]).0@ == k {
            let i = choose|i: int| 0 <= i < front.len() && (#[trigger] front[i]).0@ == k;
            assert(entries[i].0@ == k);
        }
        if exists|i: int| 0 <= i < entries.len() && (#[trigger] entries[i]).0@ == k {
            let i = choose|i: int| 0 <= i < entries.len() && (#[trigger] entries[i]).0@ == k;
            if i < front.len() {
                assert(front[i].0@ == k);
            }
        }
    }
}

} // verus!
