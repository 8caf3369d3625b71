//! Text as a sequence of characters: trimming, searching, words and numerals.

use vstd::prelude::*;
use vstd::slice::slice_subrange;

verus! {

/// `String::push` appends one character.
pub assume_specification[ String::push ](s: &mut String, ch: char)
    ensures
        final(s)@ == old(s)@.push(ch),
;

/// What a list of strings spells.
pub open spec fn texts(v: Seq<String>) -> Seq<Seq<char>> {
    v.map_values(|s: String| s@)
}

/// A character of Unicode's White_Space property.
pub open spec fn is_white(c: char) -> bool {
    let u = c as u32;
    ||| 0x9 <= u <= 0xd
    ||| u == 0x20
    ||| u == 0x85
    ||| u == 0xa0
    ||| u == 0x1680
    ||| 0x2000 <= u <= 0x200a
    ||| 0x2028 <= u <= 0x2029
    ||| u == 0x202f
    ||| u == 0x205f
    ||| u == 0x3000
}

/// Whether `c` is white space.
pub fn is_whitespace(c: char) -> (r: bool)
    ensures
        r == is_white(c),
{
    let u: u32 = c as u32;
    (0x9 <= u && u <= 0xd) || u == 0x20 || u == 0x85 || u == 0xa0 || u == 0x1680 || (0x2000 <= u
        && u <= 0x200a) || u == 0x2028 || u == 0x2029 || u == 0x202f || u == 0x205f || u == 0x3000
}

/// `s` without the white space it starts with.
pub open spec fn trim_start(s: Seq<char>) -> Seq<char>
    decreases s.len(),
{
    if s.len() > 0 && is_white(s[0]) {
        trim_start(s.drop_first())
    } else {
        s
    }
}

/// `s` without the white space it ends with.
pub open spec fn trim_end(s: Seq<char>) -> Seq<char>
    decreases s.len(),
{
    if s.len() > 0 && is_white(s.last()) {
        trim_end(s.drop_last())
    } else {
        s
    }
}

/// `s` without the white space at either end.
pub open spec fn trim(s: Seq<char>) -> Seq<char> {
    trim_end(trim_start(s))
}

/// The characters of a string, in order.
pub fn chars_of(s: &str) -> (v: Vec<char>)
    ensures
        v@ == s@,
{
    let mut v: Vec<char> = Vec::new();
    for c in it: s.chars()
        invariant
            v@ == it.seq().take(it.index()),
            it.seq() == s@,
    {
        v.push(c);
    }
    v
}

/// The string that `s` spells.
pub fn string_of(s: &[char]) -> (r: String)
    ensures
        r@ == s@,
{
    let mut r: String = String::new();
    let mut i: usize = 0;
    while i < s.len()
        invariant
            i <= s@.len(),
            r@ == s@.take(i as int),
        decreases s@.len() - i,
    {
        r.push(s[i]);
        assert(s@.take(i + 1) =~= s@.take(i as int).push(s@[i as int]));
        i = i + 1;
    }
    assert(s@.take(i as int) =~= s@);
    r
}

/// `s` without the white space it starts with.
pub fn skip_white(s: &[char]) -> (r: &[char])
    ensures
        r@ == trim_start(s@),
{
    let mut i: usize = 0;
    assert(s@.skip(0) =~= s@);
    while i < s.len() && is_whitespace(s[i])
        invariant
            i <= s@.len(),
            trim_start(s@.skip(i as int)) == trim_start(s@),
        decreases s@.len() - i,
    {
        assert(s@.skip(i as int).drop_first() =~= s@.skip(i + 1));
        i = i + 1;
    }
    assert(s@.subrange(i as int, s@.len() as int) =~= s@.skip(i as int));
    slice_subrange(s, i, s.len())
}

/// `s` without the white space at either end.
pub fn strip_white(s: &[char]) -> (r: &[char])
    ensures
        r@ == trim(s@),
{
    drop_white(skip_white(s))
}

/// `s` without the white space it ends with.
pub fn drop_white(s: &[char]) -> (r: &[char])
    ensures
        r@ == trim_end(s@),
{
    let mut n: usize = s.len();
    assert(s@.take(n as int) =~= s@);
    while n > 0 && is_whitespace(s[n - 1])
        invariant
            n <= s@.len(),
            trim_end(s@.take(n as int)) == trim_end(s@),
        decreases n,
    {
        assert(s@.take(n as int).drop_last() =~= s@.take(n - 1));
        n = n - 1;
    }
    assert(s@.subrange(0, n as int) =~= s@.take(n as int));
    slice_subrange(s, 0, n)
}

/// `p` stands in `s` at position `i`.
pub open spec fn occurs_at(s: Seq<char>, p: Seq<char>, i: int) -> bool {
    &&& 0 <= i
    &&& i + p.len() <= s.len()
    &&& s.subrange(i, i + p.len()) == p
}

/// `p` stands somewhere in `s`.
pub open spec fn contains(s: Seq<char>, p: Seq<char>) -> bool {
    exists|i: int| occurs_at(s, p, i)
}

/// `i` is the first position at which `p` stands in `s`.
pub open spec fn first_at(s: Seq<char>, p: Seq<char>, i: int) -> bool {
    &&& occurs_at(s, p, i)
    &&& forall|j: int| j < i ==> !occurs_at(s, p, j)
}

/// The first position at which `p` stands in `s`.
pub open spec fn find(s: Seq<char>, p: Seq<char>) -> Option<int> {
    if contains(s, p) {
        Some(choose|i: int| first_at(s, p, i))
    } else {
        None
    }
}

/// `i` is the last position that holds `c`.
pub open spec fn last_at(s: Seq<char>, c: char, i: int) -> bool {
    &&& 0 <= i < s.len()
    &&& s[i] == c
    &&& forall|j: int| i < j < s.len() ==> s[j] != c
}

/// The last position that holds `c`.
pub open spec fn rfind(s: Seq<char>, c: char) -> Option<int> {
    if s.contains(c) {
        Some(choose|i: int| last_at(s, c, i))
    } else {
        None
    }
}

/// Whether `s` starts with `p`.
pub fn starts_with(s: &[char], p: &str) -> (r: bool)
    ensures
        r == p@.is_prefix_of(s@),
{
    let pat: Vec<char> = chars_of(p);
    if pat.len() > s.len() {
        return false;
    }
    matches_at(s, &pat, 0)
}

fn matches_at(s: &[char], pat: &Vec<char>, i: usize) -> (r: bool)
    requires
        i + pat@.len() <= s@.len(),
    ensures
        r == occurs_at(s@, pat@, i as int),
        i == 0 ==> r == pat@.is_prefix_of(s@),
{
    let n: usize = s.len();
    let mut k: usize = 0;
    while k < pat.len()
        invariant
            n == s@.len(),
            k <= pat@.len(),
            i + pat@.len() <= n,
            forall|j: int| 0 <= j < k ==> s@[i + j] == pat@[j],
        decreases pat@.len() - k,
    {
        if s[i + k] != pat[k] {
            assert(s@.subrange(i as int, i + pat@.len())[k as int] != pat@[k as int]);
            return false;
        }
        k = k + 1;
    }
    assert(s@.subrange(i as int, i + pat@.len()) =~= pat@);
    true
}

/// The first place of a pattern is the one that is found.
pub proof fn lemma_find_is(s: Seq<char>, p: Seq<char>, i: int)
    requires
        first_at(s, p, i),
    ensures
        find(s, p) == Some(i),
{
    let k = choose|k: int| first_at(s, p, k);
    assert(first_at(s, p, k));
    if k < i {
        assert(!occurs_at(s, p, k));
    } else if i < k {
        assert(!occurs_at(s, p, i));
    }
}

/// The first position at which `p` stands in `s`.
pub fn find_text(s: &[char], p: &str) -> (r: Option<usize>)
    ensures
        r matches Some(i) ==> find(s@, p@) == Some(i as int) && occurs_at(s@, p@, i as int),
        r is None ==> find(s@, p@) is None,
{
    let pat: Vec<char> = chars_of(p);
    let n: usize = s.len();
    let mut i: usize = 0;
    while n - i >= pat.len()
        invariant
            n == s@.len(),
            i <= n,
            pat@ == p@,
            forall|j: int| j < i ==> !occurs_at(s@, p@, j),
        decreases n - i,
    {
        if matches_at(s, &pat, i) {
            proof {
                lemma_find_is(s@, p@, i as int);
            }
            return Some(i);
        }
        assert(pat@.len() > 0) by {
            if pat@.len() == 0 {
                assert(s@.subrange(i as int, i + pat@.len()) =~= pat@);
            }
        }
        i = i + 1;
    }
    None
}

/// Whether `p` stands somewhere in `s`.
pub fn contains_text(s: &[char], p: &str) -> (r: bool)
    ensures
        r == contains(s@, p@),
{
    find_text(s, p).is_some()
}

/// The last position that holds `c`.
pub fn rfind_char(s: &[char], c: char) -> (r: Option<usize>)
    ensures
        r matches Some(i) ==> rfind(s@, c) == Some(i as int) && last_at(s@, c, i as int),
        r is None ==> rfind(s@, c) is None,
{
    let mut n: usize = s.len();
    while n > 0
        invariant
            n <= s@.len(),
            forall|j: int| n <= j < s@.len() ==> s@[j] != c,
        decreases n,
    {
        if s[n - 1] == c {
            assert(last_at(s@, c, n - 1));
            assert forall|j: int| last_at(s@, c, j) implies j == n - 1 by {}
            return Some(n - 1);
        }
        n = n - 1;
    }
    None
}

/// The part of `s` before its first white space.
pub open spec fn word_prefix(s: Seq<char>) -> Seq<char>
    decreases s.len(),
{
    if s.len() > 0 && !is_white(s[0]) {
        seq![s[0]] + word_prefix(s.drop_first())
    } else {
        Seq::empty()
    }
}

/// The part of `s` after its last white space.
pub open spec fn word_suffix(s: Seq<char>) -> Seq<char>
    decreases s.len(),
{
    if s.len() > 0 && !is_white(s.last()) {
        word_suffix(s.drop_last()).push(s.last())
    } else {
        Seq::empty()
    }
}

/// The first of the words that white space separates.
pub open spec fn first_word(s: Seq<char>) -> Option<Seq<char>> {
    let t = trim_start(s);
    if t.len() > 0 {
        Some(word_prefix(t))
    } else {
        None
    }
}

/// The last of the words that white space separates.
pub open spec fn last_word(s: Seq<char>) -> Option<Seq<char>> {
    let t = trim_end(s);
    if t.len() > 0 {
        Some(word_suffix(t))
    } else {
        None
    }
}

proof fn lemma_word_prefix(s: Seq<char>, n: int)
    requires
        0 <= n <= s.len(),
        forall|i: int| 0 <= i < n ==> !is_white(#[trigger] s[i]),
        n < s.len() ==> is_white(s[n]),
    ensures
        word_prefix(s) == s.take(n),
    decreases n,
{
    if n > 0 {
        let t = s.drop_first();
        assert forall|i: int| 0 <= i < n - 1 implies !is_white(#[trigger] t[i]) by {
            assert(t[i] == s[i + 1]);
        }
        lemma_word_prefix(t, n - 1);
        assert(s.take(n) =~= seq![s[0]] + t.take(n - 1));
    } else {
        assert(s.take(n) =~= Seq::<char>::empty());
    }
}

proof fn lemma_word_suffix(s: Seq<char>, n: int)
    requires
        0 <= n <= s.len(),
        forall|i: int| n <= i < s.len() ==> !is_white(#[trigger] s[i]),
        n > 0 ==> is_white(s[n - 1]),
    ensures
        word_suffix(s) == s.skip(n),
    decreases s.len() - n,
{
    if n < s.len() {
        let t = s.drop_last();
        assert forall|i: int| n <= i < t.len() implies !is_white(#[trigger] t[i]) by {
            assert(t[i] == s[i]);
        }
        lemma_word_suffix(t, n);
        assert(s.skip(n) =~= t.skip(n).push(s.last()));
    } else {
        assert(s.skip(n) =~= Seq::<char>::empty());
    }
}

/// The first of the words that white space separates.
pub fn word_first(s: &[char]) -> (r: Option<&[char]>)
    ensures
        r matches Some(w) ==> first_word(s@) == Some(w@),
        r is None ==> first_word(s@) is None,
{
    let t: &[char] = skip_white(s);
    if t.len() == 0 {
        return None;
    }
    let mut n: usize = 0;
    while n < t.len() && !is_whitespace(t[n])
        invariant
            n <= t@.len(),
            forall|i: int| 0 <= i < n ==> !is_white(#[trigger] t@[i]),
        decreases t@.len() - n,
    {
        n = n + 1;
    }
    proof {
        lemma_word_prefix(t@, n as int);
    }
    assert(t@.subrange(0, n as int) =~= t@.take(n as int));
    Some(slice_subrange(t, 0, n))
}

/// The last of the words that white space separates.
pub fn word_last(s: &[char]) -> (r: Option<&[char]>)
    ensures
        r matches Some(w) ==> last_word(s@) == Some(w@),
        r is None ==> last_word(s@) is None,
{
    let t: &[char] = drop_white(s);
    if t.len() == 0 {
        return None;
    }
    let mut n: usize = t.len();
    while n > 0 && !is_whitespace(t[n - 1])
        invariant
            n <= t@.len(),
            forall|i: int| n <= i < t@.len() ==> !is_white(#[trigger] t@[i]),
        decreases n,
    {
        n = n - 1;
    }
    proof {
        lemma_word_suffix(t@, n as int);
    }
    assert(t@.subrange(n as int, t@.len() as int) =~= t@.skip(n as int));
    Some(slice_subrange(t, n, t.len()))
}

/// Trimming takes away nothing but white space.
pub proof fn lemma_trim_keeps(s: Seq<char>, c: char)
    requires
        !is_white(c),
        s.contains(c),
    ensures
        trim(s).contains(c),
{
    lemma_trim_start_keeps(s, c);
    lemma_trim_end_keeps(trim_start(s), c);
}

proof fn lemma_trim_start_keeps(s: Seq<char>, c: char)
    requires
        !is_white(c),
        s.contains(c),
    ensures
        trim_start(s).contains(c),
    decreases s.len(),
{
    if is_white(s[0]) {
        let i = choose|i: int| 0 <= i < s.len() && s[i] == c;
        assert(s.drop_first()[i - 1] == c);
        lemma_trim_start_keeps(s.drop_first(), c);
    }
}

proof fn lemma_trim_end_keeps(s: Seq<char>, c: char)
    requires
        !is_white(c),
        s.contains(c),
    ensures
        trim_end(s).contains(c),
    decreases s.len(),
{
    if is_white(s.last()) {
        let i = choose|i: int| 0 <= i < s.len() && s[i] == c;
        assert(s.drop_last()[i] == c);
        lemma_trim_end_keeps(s.drop_last(), c);
    }
}

/// A decimal digit.
pub open spec fn is_digit(c: char) -> bool {
    '0' <= c <= '9'
}

/// The number that decimal digits write, most significant first.
pub open spec fn decimal_value(s: Seq<char>) -> nat
    decreases s.len(),
{
    if s.len() == 0 {
        0
    } else {
        10 * decimal_value(s.drop_last()) + (s.last() as u32 - '0' as u32) as nat
    }
}

/// The digits of a number written with an optional plus sign.
pub open spec fn unsigned_digits(s: Seq<char>) -> Seq<char> {
    if s.len() > 0 && s[0] == '+' {
        s.drop_first()
    } else {
        s
    }
}

/// Some digits and nothing else.
pub open spec fn all_digits(s: Seq<char>) -> bool {
    &&& s.len() > 0
    &&& forall|i: int| 0 <= i < s.len() ==> is_digit(#[trigger] s[i])
}

/// The 32-bit number that `s` writes: an optional plus sign, then decimal digits only.
pub open spec fn u32_value(s: Seq<char>) -> Option<u32> {
    let d = unsigned_digits(s);
    if all_digits(d) && decimal_value(d) <= u32::MAX {
        Some(decimal_value(d) as u32)
    } else {
        None
    }
}

/// Reads a 32-bit number: an optional plus sign, then decimal digits only.
pub fn parse_u32(s: &[char]) -> (r: Option<u32>)
    ensures
        r == u32_value(s@),
{
    let start: usize = if s.len() > 0 && s[0] == '+' {
        1
    } else {
        0
    };
    let d: &[char] = slice_subrange(s, start, s.len());
    assert(d@ =~= unsigned_digits(s@));
    if d.len() == 0 {
        return None;
    }
    let mut v: u64 = 0;
    let mut i: usize = 0;
    let mut fits: bool = true;
    while i < d.len()
        invariant
            i <= d@.len(),
            d@ == unsigned_digits(s@),
            forall|j: int| 0 <= j < i ==> is_digit(#[trigger] d@[j]),
            fits ==> v == decimal_value(d@.take(i as int)) && v <= u32::MAX,
            !fits ==> decimal_value(d@.take(i as int)) > u32::MAX,
        decreases d@.len() - i,
    {
        let c: char = d[i];
        if !('0' <= c && c <= '9') {
            assert(!is_digit(d@[i as int]));
            return None;
        }
        assert(d@.take(i + 1).drop_last() =~= d@.take(i as int));
        if fits {
            v = v * 10 + (c as u32 - '0' as u32) as u64;
            if v > u32::MAX as u64 {
                fits = false;
            }
        }
        i = i + 1;
    }
    assert(d@.take(i as int) =~= d@);
    if fits {
        Some(v as u32)
    } else {
        None
    }
}

/// The digit of value `d`, in lower case.
pub open spec fn digit_char(d: nat) -> char {
    if d < 10 {
        ('0' as nat + d) as char
    } else {
        ('a' as nat + d - 10) as char
    }
}

/// The numeral of `n` in base `base`, without leading zeros.
pub open spec fn numeral(n: nat, base: nat) -> Seq<char>
    decreases n,
{
    if base < 2 || n < base {
        seq![digit_char(n)]
    } else {
        proof {
            vstd::arithmetic::div_mod::lemma_div_decreases(n as int, base as int);
        }
        numeral(n / base, base).push(digit_char(n % base))
    }
}

/// Appends the numeral of `n` in base `base`.
pub fn push_numeral(out: &mut String, n: u64, base: u64)
    requires
        2 <= base <= 16,
    ensures
        final(out)@ == old(out)@ + numeral(n as nat, base as nat),
    decreases n,
{
    if n >= base {
        proof {
            vstd::arithmetic::div_mod::lemma_div_decreases(n as int, base as int);
            vstd::arithmetic::div_mod::lemma_mod_pos_bound(n as int, base as int);
        }
        push_numeral(out, n / base, base);
    }
    let d: u64 = n % base;
    proof {
        if n < base {
            vstd::arithmetic::div_mod::lemma_small_mod(n as nat, base as nat);
        }
    }
    let c: char = if d < 10 {
        (48u8 + d as u8) as char
    } else {
        (87u8 + d as u8) as char
    };
    out.push(c);
}

/// The decimal numeral of `n`.
pub open spec fn decimal(n: nat) -> Seq<char> {
    numeral(n, 10)
}

proof fn lemma_digit_char(d: nat)
    requires
        d < 16,
    ensures
        digit_char(d) as nat == if d < 10 {
            48 + d
        } else {
            87 + d
        },
        d < 10 ==> is_digit(digit_char(d)),
{
}

/// The decimal numeral of a number is made of digits, and they write that number.
pub proof fn law_decimal_reads_back(n: nat)
    ensures
        all_digits(decimal(n)),
        decimal_value(decimal(n)) == n,
        n <= u32::MAX ==> u32_value(decimal(n)) == Some(n as u32),
    decreases n,
{
    let s = decimal(n);
    lemma_digit_char(n % 10);
    if n < 10 {
        assert(s =~= seq![digit_char(n)]);
        assert(s.drop_last() =~= Seq::<char>::empty());
        assert(decimal_value(s.drop_last()) == 0);
    } else {
        law_decimal_reads_back(n / 10);
        assert(s.drop_last() =~= decimal(n / 10));
        assert forall|i: int| 0 <= i < s.len() implies is_digit(#[trigger] s[i]) by {
            if i < s.len() - 1 {
                assert(s[i] == decimal(n / 10)[i]);
            }
        }
    }
    assert(is_digit(s[0]));
    assert(unsigned_digits(s) == s);
}

/// Two numbers with the same numeral are equal.
pub proof fn law_numeral_is_unique(a: nat, b: nat, base: nat)
    requires
        2 <= base <= 16,
        numeral(a, base) == numeral(b, base),
    ensures
        a == b,
    decreases a,
{
    let (s, t) = (numeral(a, base), numeral(b, base));
    vstd::arithmetic::div_mod::lemma_mod_pos_bound(a as int, base as int);
    vstd::arithmetic::div_mod::lemma_mod_pos_bound(b as int, base as int);
    lemma_digit_char(a % base);
    lemma_digit_char(b % base);
    lemma_numeral_ends(a, base);
    lemma_numeral_ends(b, base);
    assert(a % base == b % base);
    if a >= base && b >= base {
        vstd::arithmetic::div_mod::lemma_div_decreases(a as int, base as int);
        assert(s.drop_last() =~= numeral(a / base, base));
        assert(t.drop_last() =~= numeral(b / base, base));
        law_numeral_is_unique(a / base, b / base, base);
        vstd::arithmetic::div_mod::lemma_fundamental_div_mod(a as int, base as int);
        vstd::arithmetic::div_mod::lemma_fundamental_div_mod(b as int, base as int);
    } else {
        if a < base {
            vstd::arithmetic::div_mod::lemma_small_mod(a, base);
        } else {
            lemma_numeral_ends(a / base, base);
        }
        if b < base {
            vstd::arithmetic::div_mod::lemma_small_mod(b, base);
        } else {
            lemma_numeral_ends(b / base, base);
        }
    }
}

proof fn lemma_numeral_ends(n: nat, base: nat)
    requires
        2 <= base,
    ensures
        numeral(n, base).len() >= 1,
        numeral(n, base).last() == digit_char(n % base),
{
    if n < base {
        vstd::arithmetic::div_mod::lemma_small_mod(n, base);
    }
}

/// White space only.
pub open spec fn all_white(s: Seq<char>) -> bool {
    forall|i: int| 0 <= i < s.len() ==> is_white(#[trigger] s[i])
}

/// White space in front makes no difference to a text without its leading white space.
pub proof fn lemma_trim_start_lead(lead: Seq<char>, s: Seq<char>)
    requires
        all_white(lead),
    ensures
        trim_start(lead + s) == trim_start(s),
    decreases lead.len(),
{
    if lead.len() > 0 {
        let rest = lead.drop_first();
        assert((lead + s)[0] == lead[0]);
        assert((lead + s).drop_first() =~= rest + s);
        assert forall|i: int| 0 <= i < rest.len() implies is_white(#[trigger] rest[i]) by {
            assert(rest[i] == lead[i + 1]);
        }
        lemma_trim_start_lead(rest, s);
    } else {
        assert(lead + s =~= s);
    }
}

/// What follows a text with more than white space in it stays when that text is trimmed.
pub proof fn lemma_trim_start_rest(s: Seq<char>, rest: Seq<char>)
    requires
        trim_start(s).len() > 0,
    ensures
        trim_start(s + rest) == trim_start(s) + rest,
    decreases s.len(),
{
    assert((s + rest)[0] == s[0]);
    if is_white(s[0]) {
        assert((s + rest).drop_first() =~= s.drop_first() + rest);
        lemma_trim_start_rest(s.drop_first(), rest);
    }
}

/// What ends in something else than white space is kept when white space is cut off behind it.
pub proof fn lemma_trim_end_tail(s: Seq<char>, tail: Seq<char>)
    requires
        s.len() > 0,
        !is_white(s.last()),
    ensures
        trim_end(s + tail) == s + trim_end(tail),
    decreases tail.len(),
{
    if tail.len() > 0 && is_white(tail.last()) {
        assert((s + tail).last() == tail.last());
        assert((s + tail).drop_last() =~= s + tail.drop_last());
        lemma_trim_end_tail(s, tail.drop_last());
    } else if tail.len() > 0 {
        assert((s + tail).last() == tail.last());
    } else {
        assert(s + tail =~= s);
        assert(s + trim_end(tail) =~= s);
    }
}

/// What is left when white space is cut off at the end is the start of the text.
pub proof fn lemma_trim_end_prefix(s: Seq<char>)
    ensures
        trim_end(s).is_prefix_of(s),
        all_white(s) ==> trim_end(s).len() == 0,
    decreases s.len(),
{
    if s.len() > 0 && is_white(s.last()) {
        let rest = s.drop_last();
        lemma_trim_end_prefix(rest);
        if all_white(s) {
            assert forall|i: int| 0 <= i < rest.len() implies is_white(#[trigger] rest[i]) by {
                assert(rest[i] == s[i]);
            }
        }
    } else if s.len() > 0 && all_white(s) {
        assert(is_white(s[s.len() - 1]));
    }
}

/// Text between white space is what is left without it.
pub proof fn lemma_trim_between(lead: Seq<char>, s: Seq<char>, trail: Seq<char>)
    requires
        all_white(lead),
        s.len() > 0,
        !is_white(s[0]),
        !is_white(s.last()),
    ensures
        trim(lead + s + trail) == s + trim_end(trail),
        all_white(trail) ==> trim(lead + s + trail) == s,
{
    assert(lead + s + trail =~= lead + (s + trail));
    lemma_trim_start_lead(lead, s + trail);
    assert((s + trail)[0] == s[0]);
    lemma_trim_end_tail(s, trail);
    lemma_trim_end_prefix(trail);
    if all_white(trail) {
        assert(s + trim_end(trail) =~= s);
    }
}

/// The first word after white space, with white space or nothing behind it.
pub proof fn lemma_first_word(word: Seq<char>, rest: Seq<char>)
    requires
        word.len() > 0,
        forall|i: int| 0 <= i < word.len() ==> !is_white(#[trigger] word[i]),
        rest.len() > 0 ==> is_white(rest[0]),
    ensures
        first_word(word + rest) == Some(word),
{
    let s = word + rest;
    assert(!is_white(word[0]));
    assert(s[0] == word[0]);
    assert forall|i: int| 0 <= i < word.len() implies !is_white(#[trigger] s[i]) by {
        assert(s[i] == word[i]);
    }
    lemma_word_prefix(s, word.len() as int);
    assert(s.take(word.len() as int) =~= word);
}

/// The last word, with white space or nothing before it and white space behind it.
pub proof fn lemma_last_word(before: Seq<char>, word: Seq<char>, trail: Seq<char>)
    requires
        before.len() > 0 ==> is_white(before.last()),
        word.len() > 0,
        forall|i: int| 0 <= i < word.len() ==> !is_white(#[trigger] word[i]),
        all_white(trail),
    ensures
        last_word(before + word + trail) == Some(word),
{
    let s = before + word;
    assert(!is_white(word[word.len() - 1]));
    assert(s.last() == word[word.len() - 1]);
    lemma_trim_end_tail(s, trail);
    lemma_trim_end_prefix(trail);
    assert(s + trim_end(trail) =~= s);
    assert forall|i: int| before.len() <= i < s.len() implies !is_white(#[trigger] s[i]) by {
        assert(s[i] == word[i - before.len()]);
    }
    lemma_word_suffix(s, before.len() as int);
    assert(s.skip(before.len() as int) =~= word);
}

/// The last place of a character is found, if it stands nowhere behind.
pub proof fn lemma_rfind(before: Seq<char>, c: char, after: Seq<char>)
    requires
        !after.contains(c),
    ensures
        rfind(before.push(c) + after, c) == Some(before.len() as int),
{
    let s = before.push(c) + after;
    let i = before.len() as int;
    assert(s[i] == c);
    assert forall|j: int| i < j < s.len() implies s[j] != c by {
        assert(s[j] == after[j - i - 1]);
    }
    assert(last_at(s, c, i));
    let k = choose|k: int| last_at(s, c, k);
    assert(last_at(s, c, k));
}

/// `n` copies of one character.
pub open spec fn repeated(c: char, n: nat) -> Seq<char> {
    Seq::new(n, |i: int| c)
}

/// Appends `n` copies of one character.
pub fn push_repeated(out: &mut String, c: char, n: usize)
    ensures
        final(out)@ == old(out)@ + repeated(c, n as nat),
{
    let mut i: usize = 0;
    while i < n
        invariant
            i <= n,
            out@ == old(out)@ + repeated(c, i as nat),
        decreases n - i,
    {
        out.push(c);
        i = i + 1;
        assert(out@ =~= old(out)@ + repeated(c, i as nat));
    }
}

/// A text without its leading white space is the text from its first other character on.
pub proof fn law_leading_white_space_goes(s: Seq<char>) -> (n: int)
    ensures
        0 <= n <= s.len(),
        forall|i: int| 0 <= i < n ==> is_white(#[trigger] s[i]),
        n < s.len() ==> !is_white(s[n]),
        trim_start(s) == s.skip(n),
    decreases s.len(),
{
    if s.len() > 0 && is_white(s[0]) {
        let rest = s.drop_first();
        let n = law_leading_white_space_goes(rest);
        assert(s.skip(n + 1) =~= rest.skip(n));
        assert forall|i: int| 0 <= i < n + 1 implies is_white(#[trigger] s[i]) by {
            if i > 0 {
                assert(s[i] == rest[i - 1]);
            }
        }
        n + 1
    } else {
        assert(s.skip(0) =~= s);
        0
    }
}

/// A text without its trailing white space is the text up to its last other character.
pub proof fn law_trailing_white_space_goes(s: Seq<char>) -> (n: int)
    ensures
        0 <= n <= s.len(),
        forall|i: int| n <= i < s.len() ==> is_white(#[trigger] s[i]),
        n > 0 ==> !is_white(s[n - 1]),
        trim_end(s) == s.take(n),
    decreases s.len(),
{
    if s.len() > 0 && is_white(s.last()) {
        let rest = s.drop_last();
        let n = law_trailing_white_space_goes(rest);
        assert(s.take(n) =~= rest.take(n));
        assert forall|i: int| n <= i < s.len() implies is_white(#[trigger] s[i]) by {
            if i < rest.len() {
                assert(s[i] == rest[i]);
            }
        }
        n
    } else {
        assert(s.take(s.len() as int) =~= s);
        s.len() as int
    }
}

/// What stands between white space is what is left without it, and nothing is left of white space
/// alone.
pub proof fn law_trimming_leaves_the_middle(lead: Seq<char>, middle: Seq<char>, trail: Seq<char>)
    requires
        all_white(lead),
        all_white(trail),
        middle.len() > 0 ==> !is_white(middle[0]) && !is_white(middle.last()),
    ensures
        trim(lead + middle + trail) == middle,
        trim_start(lead + middle + trail) == if middle.len() > 0 {
            middle + trail
        } else {
            Seq::empty()
        },
{
    assert(lead + middle + trail =~= lead + (middle + trail));
    lemma_trim_start_lead(lead, middle + trail);
    if middle.len() > 0 {
        lemma_trim_between(lead, middle, trail);
        assert((middle + trail)[0] == middle[0]);
    } else {
        assert(middle + trail =~= trail + Seq::<char>::empty());
        lemma_trim_start_lead(trail, Seq::empty());
        assert(middle =~= Seq::<char>::empty());
        assert(trim_start(Seq::empty()) =~= Seq::<char>::empty());
        assert(trim_end(Seq::<char>::empty()) =~= Seq::<char>::empty());
    }
}

/// A text holds another just where it is made of something, the other, and something more.
pub proof fn law_contains_what_it_is_made_of(s: Seq<char>, p: Seq<char>)
    ensures
        contains(s, p) <==> exists|a: Seq<char>, b: Seq<char>| s == #[trigger] (a + p + b),
{
    if contains(s, p) {
        let i = choose|i: int| occurs_at(s, p, i);
        let (a, b) = (s.take(i), s.skip(i + p.len()));
        assert(s =~= a + s.subrange(i, i + p.len()) + b);
        assert(s == a + p + b);
    }
    if exists|a: Seq<char>, b: Seq<char>| s == #[trigger] (a + p + b) {
        let (a, b) = choose|a: Seq<char>, b: Seq<char>| s == #[trigger] (a + p + b);
        let i = a.len() as int;
        assert(s.subrange(i, i + p.len()) =~= p);
        assert(occurs_at(s, p, i));
    }
}

/// The first place of a pattern is found, and none where it does not stand.
pub proof fn law_first_place_is_found(a: Seq<char>, p: Seq<char>, b: Seq<char>)
    ensures
        ({
            let s = a + p + b;
            &&& find(s, p) is Some
            &&& (forall|i: int| 0 <= i < a.len() ==> #[trigger] s.subrange(i, i + p.len()) != p)
                ==> find(s, p) == Some(a.len() as int)
        }),
        (forall|x: Seq<char>, y: Seq<char>| b != #[trigger] (x + p + y)) ==> find(b, p) is None,
{
    let s = a + p + b;
    let i = a.len() as int;
    assert(s.subrange(i, i + p.len()) =~= p);
    assert(occurs_at(s, p, i));
    if forall|j: int| 0 <= j < a.len() ==> #[trigger] s.subrange(j, j + p.len()) != p {
        assert(first_at(s, p, i));
        lemma_find_is(s, p, i);
    }
    law_contains_what_it_is_made_of(b, p);
}

/// The last place of a character is found, and none where it does not stand.
pub proof fn law_last_place_is_found(a: Seq<char>, c: char, b: Seq<char>)
    requires
        !b.contains(c),
    ensures
        rfind(a.push(c) + b, c) == Some(a.len() as int),
        rfind(b, c) is None,
{
    lemma_rfind(a, c, b);
}

/// The first word stands behind white space and before white space or the end.
pub proof fn law_first_word_is_read(lead: Seq<char>, word: Seq<char>, rest: Seq<char>)
    requires
        all_white(lead),
        word.len() > 0,
        forall|i: int| 0 <= i < word.len() ==> !is_white(#[trigger] word[i]),
        rest.len() > 0 ==> is_white(rest[0]),
    ensures
        first_word(lead + word + rest) == Some(word),
        first_word(lead) is None,
{
    lemma_first_word(word, rest);
    assert(lead + word + rest =~= lead + (word + rest));
    lemma_trim_start_lead(lead, word + rest);
    assert((word + rest)[0] == word[0]);
    assert(lead + Seq::<char>::empty() =~= lead);
    lemma_trim_start_lead(lead, Seq::empty());
}

/// The last word stands behind white space or the start and before white space.
pub proof fn law_last_word_is_read(before: Seq<char>, word: Seq<char>, trail: Seq<char>)
    requires
        before.len() > 0 ==> is_white(before.last()),
        word.len() > 0,
        forall|i: int| 0 <= i < word.len() ==> !is_white(#[trigger] word[i]),
        all_white(trail),
    ensures
        last_word(before + word + trail) == Some(word),
        last_word(trail) is None,
{
    lemma_last_word(before, word, trail);
    lemma_trim_end_prefix(trail);
}

/// The last digit of a numeral is the remainder, and the digits before it are those of the
/// quotient, where there is one.
pub proof fn law_numeral_by_division(n: nat, base: nat)
    requires
        2 <= base <= 16,
    ensures
        numeral(n, base).len() > 0,
        numeral(n, base).last() == "0123456789abcdef"@[(n % base) as int],
        numeral(n, base).drop_last() == if n < base {
            Seq::empty()
        } else {
            numeral(n / base, base)
        },
{
    reveal_strlit("0123456789abcdef");
    lemma_numeral_ends(n, base);
    vstd::arithmetic::div_mod::lemma_mod_pos_bound(n as int, base as int);
    let d = (n % base) as nat;
    lemma_digit_char(d);
    assert("0123456789abcdef"@.len() == 16);
    assert(forall|i: int| 0 <= i < 10 ==> "0123456789abcdef"@[i] as u32 == 48 + i);
    assert(forall|i: int| 10 <= i < 16 ==> "0123456789abcdef"@[i] as u32 == 87 + i);
    assert(digit_char(d) as u32 == "0123456789abcdef"@[d as int] as u32);
    assert(numeral(n, base).drop_last() =~= if n < base {
        Seq::empty()
    } else {
        numeral(n / base, base)
    });
}

proof fn lemma_value_behind_zeros(k: nat, d: Seq<char>)
    requires
        forall|i: int| 0 <= i < d.len() ==> is_digit(#[trigger] d[i]),
    ensures
        decimal_value(repeated('0', k) + d) == decimal_value(d),
    decreases k + d.len(),
{
    let s = repeated('0', k) + d;
    if d.len() > 0 {
        let rest = d.drop_last();
        assert forall|i: int| 0 <= i < rest.len() implies is_digit(#[trigger] rest[i]) by {
            assert(rest[i] == d[i]);
        }
        assert(s.drop_last() =~= repeated('0', k) + rest);
        lemma_value_behind_zeros(k, rest);
    } else if k > 0 {
        assert(s.drop_last() =~= repeated('0', (k - 1) as nat) + d);
        lemma_value_behind_zeros((k - 1) as nat, d);
    } else {
        assert(s =~= d);
    }
}

proof fn lemma_digits_are_numeral(s: Seq<char>) -> (k: nat)
    requires
        all_digits(s),
    ensures
        s == repeated('0', k) + decimal(decimal_value(s)),
    decreases s.len(),
{
    let c = s.last();
    let rest = s.drop_last();
    let v = decimal_value(s);
    let d = (c as u32 - '0' as u32) as nat;
    assert(is_digit(s[s.len() - 1]));
    lemma_digit_char(d);
    assert(digit_char(d) == c);
    if rest.len() == 0 {
        assert(decimal_value(rest) == 0);
        assert(decimal(v) =~= seq![c]);
        assert(s =~= repeated('0', 0) + decimal(v));
        0
    } else {
        assert forall|i: int| 0 <= i < rest.len() implies is_digit(#[trigger] rest[i]) by {
            assert(rest[i] == s[i]);
        }
        let k = lemma_digits_are_numeral(rest);
        let w = decimal_value(rest);
        assert(v == 10 * w + d && d < 10);
        assert(s =~= rest.push(c));
        assert(rest == repeated('0', k) + decimal(w));
        if w > 0 {
            assert(v / 10 == w && v % 10 == d);
            assert(decimal(v) == decimal(w).push(c));
            assert((repeated('0', k) + decimal(w)).push(c) =~= repeated('0', k) + decimal(w).push(c));
            k
        } else {
            assert(decimal(w) =~= seq!['0']) by {
                lemma_digit_char(0);
            }
            assert(decimal(v) =~= seq![c]);
            assert((repeated('0', k) + seq!['0']).push(c) =~= repeated('0', k + 1) + seq![c]);
            k + 1
        }
    }
}

/// A number is read from its numeral, with zeros in front of it or not, and with a plus sign or
/// not.
pub proof fn law_number_is_read(k: nat, n: u32)
    ensures
        u32_value(repeated('0', k) + decimal(n as nat)) == Some(n),
        u32_value("+"@ + repeated('0', k) + decimal(n as nat)) == Some(n),
{
    let d = repeated('0', k) + decimal(n as nat);
    let s = "+"@ + repeated('0', k) + decimal(n as nat);
    law_decimal_reads_back(n as nat);
    lemma_value_behind_zeros(k, decimal(n as nat));
    assert forall|i: int| 0 <= i < d.len() implies is_digit(#[trigger] d[i]) by {
        if i >= k {
            assert(d[i] == decimal(n as nat)[i - k]);
        }
    }
    assert(is_digit(d[0]));
    assert(unsigned_digits(d) == d);
    reveal_strlit("+");
    assert(s[0] == '+');
    assert(s.drop_first() =~= d);
}

/// A number is read from nothing else than its numeral, with zeros or a plus sign in front.
pub proof fn law_only_numerals_are_numbers(s: Seq<char>, n: u32) -> (k: nat)
    requires
        u32_value(s) == Some(n),
    ensures
        s == repeated('0', k) + decimal(n as nat) || s == "+"@ + repeated('0', k) + decimal(
            n as nat,
        ),
{
    let d = unsigned_digits(s);
    let k = lemma_digits_are_numeral(d);
    if s.len() > 0 && s[0] == '+' {
        reveal_strlit("+");
        assert(s =~= "+"@ + d);
        assert(s =~= "+"@ + repeated('0', k) + decimal(n as nat));
    }
    k
}

/// Copies of one character are that character throughout.
pub proof fn law_copies_are_alike(c: char, n: nat, i: int)
    ensures
        repeated(c, n).len() == n,
        0 <= i < n ==> repeated(c, n)[i] == c,
{
}

/// What strings spell is what each of them spells.
pub proof fn law_texts_are_spelled_in_order(v: Seq<String>, i: int)
    ensures
        texts(v).len() == v.len(),
        0 <= i < v.len() ==> texts(v)[i] == v[i]@,
{
}

} // verus!
