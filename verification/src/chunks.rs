//! Bytes that come in pieces: which of them make whole characters, and which have to wait.

use vstd::prelude::*;
use vstd::utf8;

verus! {

/// How many bytes a character has that starts with the byte; 1 where none of more bytes does.
pub open spec fn width(first: u8) -> nat {
    if utf8::is_leading_byte_width_2(first) {
        2
    } else if utf8::is_leading_byte_width_3(first) {
        3
    } else if utf8::is_leading_byte_width_4(first) {
        4
    } else {
        1
    }
}

/// The bytes start one character, and bytes of it are missing.
pub open spec fn is_unfinished(s: Seq<u8>) -> bool {
    &&& 0 < s.len() < width(s[0])
    &&& forall|i: int| 1 <= i < s.len() ==> utf8::is_continuation_byte(#[trigger] s[i])
}

/// Where the unfinished character at the end of the bytes starts; their end where there is none.
pub open spec fn cut(s: Seq<u8>) -> int {
    let n = s.len() as int;
    if n >= 1 && is_unfinished(s.skip(n - 1)) {
        n - 1
    } else if n >= 2 && is_unfinished(s.skip(n - 2)) {
        n - 2
    } else if n >= 3 && is_unfinished(s.skip(n - 3)) {
        n - 3
    } else {
        n
    }
}

/// The bytes in front of an unfinished character at the end.
pub open spec fn whole(s: Seq<u8>) -> Seq<u8> {
    s.take(cut(s))
}

/// The unfinished character at the end, which waits for the bytes that follow.
pub open spec fn held(s: Seq<u8>) -> Seq<u8> {
    s.skip(cut(s))
}

fn is_continuation(b: u8) -> (r: bool)
    ensures
        r == utf8::is_continuation_byte(b),
{
    0x80 <= b && b <= 0xbf
}

fn width_of(first: u8) -> (r: usize)
    ensures
        r == width(first),
{
    if 0xc0 <= first && first <= 0xdf {
        2
    } else if 0xe0 <= first && first <= 0xef {
        3
    } else if 0xf0 <= first && first <= 0xf7 {
        4
    } else {
        1
    }
}

/// Where the unfinished character at the end of the bytes starts.
pub fn find_cut(s: &[u8]) -> (r: usize)
    ensures
        r == cut(s@),
        r <= s@.len(),
{
    let n: usize = s.len();
    if n >= 1 {
        if width_of(s[n - 1]) > 1 {
            return n - 1;
        }
        assert(s@.skip(n - 1)[0] == s@[n - 1]);
    }
    if n >= 2 {
        let ghost t = s@.skip(n - 2);
        assert(t[0] == s@[n - 2] && t[1] == s@[n - 1]);
        if width_of(s[n - 2]) > 2 && is_continuation(s[n - 1]) {
            return n - 2;
        }
    }
    if n >= 3 {
        let ghost t = s@.skip(n - 3);
        assert(t[0] == s@[n - 3] && t[1] == s@[n - 2] && t[2] == s@[n - 1]);
        if width_of(s[n - 3]) > 3 && is_continuation(s[n - 2]) && is_continuation(s[n - 1]) {
            return n - 3;
        }
    }
    n
}

/// The bytes are those of whole characters and, of at most three bytes, those that wait.
pub proof fn law_nothing_is_dropped(s: Seq<u8>)
    ensures
        s == whole(s) + held(s),
        held(s).len() <= 3,
        held(s).len() > 0 ==> is_unfinished(held(s)),
{
    assert(s =~= whole(s) + held(s));
}

/// An unfinished character at the end is the one that waits.
proof fn lemma_cut_at(s: Seq<u8>, c: int)
    requires
        0 <= c < s.len(),
        is_unfinished(s.skip(c)),
    ensures
        cut(s) == c,
{
    let n = s.len() as int;
    assert(n - c <= 3);
    assert forall|d: int| c < d < n implies !is_unfinished(s.skip(d)) by {
        assert(s.skip(d)[0] == s.skip(c)[d - c]);
    }
    assert forall|d: int| n - 3 <= d < c && 0 <= d implies !is_unfinished(s.skip(d)) by {
        assert(s.skip(d)[c - d] == s.skip(c)[0]);
    }
}

/// What waits, followed by a piece, is cut where all that has come is cut.
pub proof fn law_waiting_goes_on(total: Seq<u8>, piece: Seq<u8>)
    ensures
        whole(total + piece) == whole(total) + whole(held(total) + piece),
        held(total + piece) == held(held(total) + piece),
{
    let c = cut(total);
    let all = total + piece;
    let rest = held(total) + piece;
    assert(all =~= whole(total) + rest);
    assert(rest =~= all.skip(c));
    if cut(rest) < rest.len() {
        assert(all.skip(c + cut(rest)) =~= rest.skip(cut(rest)));
        lemma_cut_at(all, c + cut(rest));
    } else if cut(all) < all.len() {
        let d = cut(all);
        if d >= c {
            assert(rest.skip(d - c) =~= all.skip(d));
            lemma_cut_at(rest, d - c);
        } else {
            let t = total.skip(d);
            assert(t.len() > 0);
            assert forall|i: int| 0 <= i < t.len() implies t[i] == all.skip(d)[i] by {}
            assert(is_unfinished(t)) by {
                assert forall|i: int| 1 <= i < t.len() implies utf8::is_continuation_byte(
                    #[trigger] t[i],
                ) by {
                    assert(t[i] == all.skip(d)[i]);
                }
            }
            lemma_cut_at(total, d);
        }
    }
    assert(cut(all) == c + cut(rest));
    assert(whole(all) =~= whole(total) + whole(rest));
    assert(held(all) =~= held(rest));
}

/// A place inside a character of valid UTF-8 lies behind the start of that character.
proof fn lemma_inside(s: Seq<u8>, k: int) -> (j: int)
    requires
        utf8::valid_utf8(s),
        0 <= k <= s.len(),
        !utf8::is_char_boundary(s, k),
    ensures
        0 <= j < k,
        is_unfinished(s.subrange(j, k)),
    decreases s.len(),
{
    utf8::is_char_boundary_start_end_of_seq(s);
    let l = utf8::length_of_first_scalar(s);
    if k < l {
        let t = s.subrange(0, k);
        assert forall|i: int| 1 <= i < t.len() implies utf8::is_continuation_byte(
            #[trigger] t[i],
        ) by {
            assert(t[i] == s[i]);
        }
        0
    } else {
        let rest = utf8::pop_first_scalar(s);
        let j = lemma_inside(rest, k - l);
        assert(rest.subrange(j, k - l) =~= s.subrange(j + l, k));
        j + l
    }
}

/// The start of valid UTF-8 is cut between two characters.
proof fn lemma_cut_is_boundary(s: Seq<u8>, k: int)
    requires
        utf8::valid_utf8(s),
        0 <= k <= s.len(),
    ensures
        utf8::is_char_boundary(s, cut(s.take(k))),
{
    let a = s.take(k);
    let c = cut(a);
    if c < k {
        assert(a.skip(c)[0] == s[c]);
        utf8::is_char_boundary_iff_is_leading_byte(s, c);
    } else if !utf8::is_char_boundary(s, k) {
        let j = lemma_inside(s, k);
        assert(a.skip(j) =~= s.subrange(j, k));
        lemma_cut_at(a, j);
    }
}

/// Of bytes that start valid UTF-8, those of whole characters are valid UTF-8, and so is what
/// waits together with all that follows; their texts make up the text.
pub proof fn law_whole_characters_are_valid(s: Seq<u8>, more: Seq<u8>)
    requires
        utf8::valid_utf8(s + more),
    ensures
        utf8::valid_utf8(whole(s)),
        utf8::valid_utf8(held(s) + more),
        utf8::decode_utf8(s + more) == utf8::decode_utf8(whole(s)) + utf8::decode_utf8(
            held(s) + more,
        ),
{
    let all = s + more;
    let c = cut(s);
    assert(all.take(s.len() as int) =~= s);
    lemma_cut_is_boundary(all, s.len() as int);
    utf8::valid_utf8_split(all, c);
    utf8::decode_utf8_split(all, c);
    assert(all.subrange(0, c) =~= whole(s));
    assert(all.subrange(c, all.len() as int) =~= held(s) + more);
}

/// At the end of valid UTF-8 nothing waits.
pub proof fn law_nothing_waits_at_the_end(s: Seq<u8>)
    requires
        utf8::valid_utf8(s),
    ensures
        whole(s) == s,
        held(s) == Seq::<u8>::empty(),
{
    let c = cut(s);
    if c < s.len() {
        law_whole_characters_are_valid(s, Seq::empty());
        assert(held(s) + Seq::<u8>::empty() =~= held(s));
        assert(utf8::valid_first_scalar(held(s)));
    }
    assert(whole(s) =~= s);
    assert(held(s) =~= Seq::<u8>::empty());
}

} // verus!
