//! Where the socket and the cache file lie.

use crate::text;
use vstd::prelude::*;

verus! {

/// The hash of a command: its bytes as the digits of a number in base 31, of which the last 64
/// bits count.
pub open spec fn command_hash(bytes: Seq<u8>) -> u64
    decreases bytes.len(),
{
    if bytes.len() == 0 {
        0
    } else {
        ((command_hash(bytes.drop_last()) * 31 + bytes.last()) % 0x1_0000_0000_0000_0000) as u64
    }
}

/// The path of `name` inside the directory `base`.
pub open spec fn inside(base: Seq<u8>, name: Seq<u8>) -> Seq<u8> {
    if base.len() > 0 && base.last() != 0x2f {
        base.push(0x2f) + name
    } else {
        base + name
    }
}

/// The bytes of a string.
pub open spec fn bytes_of(s: Seq<char>) -> Seq<u8> {
    vstd::utf8::encode_utf8(s)
}

/// The file name of the socket for a command.
pub open spec fn socket_name(command: Seq<char>) -> Seq<char> {
    "notfail-"@ + text::numeral(command_hash(bytes_of(command)) as nat, 16) + ".sock"@
}

/// The directory of the socket: the one for what lives as long as the session, else the one for
/// caches, else the one for temporary files.
pub open spec fn socket_base(runtime: Option<Seq<u8>>, cache: Option<Seq<u8>>) -> Seq<u8> {
    match (runtime, cache) {
        (Some(dir), _) => dir,
        (None, Some(dir)) => dir,
        (None, None) => bytes_of("/tmp"@),
    }
}

/// The path of the cache file.
pub open spec fn cache_file(cache: Option<Seq<u8>>) -> Seq<u8> {
    inside(
        inside(
            match cache {
                Some(dir) => dir,
                None => bytes_of("/tmp"@),
            },
            bytes_of("notfail"@),
        ),
        bytes_of("test_cache.json"@),
    )
}

/// The bytes of a path, if there is one.
pub open spec fn path_bytes(path: Option<Vec<u8>>) -> Option<Seq<u8>> {
    match path {
        Some(bytes) => Some(bytes@),
        None => None,
    }
}

/// No path, or one that is not empty.
pub open spec fn is_user_dir(dir: Option<Seq<u8>>) -> bool {
    match dir {
        Some(path) => path.len() > 0,
        None => true,
    }
}

/// `dirs::cache_dir` gives the user's directory for caches, as the environment has it: none, or
/// one with a path that is not empty.
#[verifier::external_body]
pub(crate) fn user_cache_dir() -> (r: Option<Vec<u8>>)
    ensures
        is_user_dir(path_bytes(r)),
{
    dirs::cache_dir().map(|path| path.into_os_string().into_encoded_bytes())
}

/// `dirs::runtime_dir` gives the user's directory for what lives as long as the session, as the
/// environment has it: none, or one with a path that is not empty.
#[verifier::external_body]
fn user_runtime_dir() -> (r: Option<Vec<u8>>)
    ensures
        is_user_dir(path_bytes(r)),
{
    dirs::runtime_dir().map(|path| path.into_os_string().into_encoded_bytes())
}

fn join(base: Vec<u8>, name: &str) -> (r: Vec<u8>)
    ensures
        r@ == inside(base@, bytes_of(name@)),
{
    let mut path: Vec<u8> = base;
    if path.len() > 0 && path[path.len() - 1] != 0x2f {
        path.push(0x2f);
    }
    path.extend_from_slice(name.as_bytes());
    assert(path@ =~= inside(base@, bytes_of(name@)));
    path
}

fn temporary_dir() -> (r: Vec<u8>)
    ensures
        r@ == bytes_of("/tmp"@),
{
    let mut r: Vec<u8> = Vec::new();
    r.extend_from_slice("/tmp".as_bytes());
    assert(r@ =~= bytes_of("/tmp"@));
    r
}

fn hash(command: &str) -> (r: u64)
    ensures
        r == command_hash(bytes_of(command@)),
{
    let bytes: &[u8] = command.as_bytes();
    let mut acc: u64 = 0;
    let mut i: usize = 0;
    while i < bytes.len()
        invariant
            i <= bytes@.len(),
            acc == command_hash(bytes@.take(i as int)),
        decreases bytes@.len() - i,
    {
        assert(bytes@.take(i + 1).drop_last() =~= bytes@.take(i as int));
        acc = acc.wrapping_mul(31).wrapping_add(bytes[i] as u64);
        i = i + 1;
    }
    assert(bytes@.take(i as int) =~= bytes@);
    acc
}

/// The path of the socket for a command, given the directories to choose from.
pub fn socket_path_in(
    runtime: Option<Vec<u8>>,
    cache: Option<Vec<u8>>,
    command: &str,
) -> (r: Vec<u8>)
    ensures
        r@ == inside(
            socket_base(path_bytes(runtime), path_bytes(cache)),
            bytes_of(socket_name(command@)),
        ),
{
    let base: Vec<u8> = match runtime {
        Some(dir) => dir,
        None => match cache {
            Some(dir) => dir,
            None => temporary_dir(),
        },
    };
    let mut name: String = String::new();
    name.append("notfail-");
    text::push_numeral(&mut name, hash(command), 16);
    name.append(".sock");
    assert(name@ =~= socket_name(command@));
    join(base, name.as_str())
}

/// The path of the socket for a command.
pub fn get_socket_path(command: &str) -> (r: Vec<u8>)
    ensures
        exists|runtime: Option<Seq<u8>>, cache: Option<Seq<u8>>|
            is_user_dir(runtime) && is_user_dir(cache) && r@ == inside(
                #[trigger] socket_base(runtime, cache),
                bytes_of(socket_name(command@)),
            ),
{
    let runtime: Option<Vec<u8>> = user_runtime_dir();
    let cache: Option<Vec<u8>> = user_cache_dir();
    let ghost (runtime_dir, cache_dir) = (path_bytes(runtime), path_bytes(cache));
    let r: Vec<u8> = socket_path_in(runtime, cache, command);
    assert(r@ == inside(
        socket_base(runtime_dir, cache_dir),
        bytes_of(socket_name(command@)),
    ));
    r
}

/// The path of the cache file, given the directory for caches.
pub fn cache_path_in(cache: Option<Vec<u8>>) -> (r: Vec<u8>)
    ensures
        r@ == cache_file(path_bytes(cache)),
{
    let base: Vec<u8> = match cache {
        Some(dir) => dir,
        None => temporary_dir(),
    };
    join(join(base, "notfail"), "test_cache.json")
}

/// Two commands have the same socket just where their hashes are equal.
pub proof fn law_socket_tells_hashes_apart(a: Seq<char>, b: Seq<char>)
    ensures
        socket_name(a) == socket_name(b) <==> command_hash(bytes_of(a)) == command_hash(
            bytes_of(b),
        ),
{
    let (ha, hb) = (command_hash(bytes_of(a)) as nat, command_hash(bytes_of(b)) as nat);
    let (na, nb) = (text::numeral(ha, 16), text::numeral(hb, 16));
    let (head, tail) = ("notfail-"@, ".sock"@);
    if socket_name(a) == socket_name(b) {
        let s = socket_name(a);
        assert(s.len() == head.len() + na.len() + tail.len());
        assert(s.len() == head.len() + nb.len() + tail.len());
        assert(na =~= s.subrange(head.len() as int, (head.len() + na.len()) as int));
        assert(nb =~= s.subrange(head.len() as int, (head.len() + nb.len()) as int));
        text::law_numeral_is_unique(ha, hb, 16);
    }
}

/// Every byte of a command counts: one more byte makes 31 times the hash and the byte, as a number
/// of 64 bits.
pub proof fn law_every_byte_counts(bytes: Seq<u8>, b: u8)
    ensures
        command_hash(bytes.push(b)) == (31 * command_hash(bytes) + b) % 0x1_0000_0000_0000_0000,
        command_hash(Seq::empty()) == 0,
{
    assert(bytes.push(b).drop_last() =~= bytes);
}

/// Factor and place of a byte in the hash: 31 to the power of the number of bytes behind it.
spec fn place(k: nat) -> int
    decreases k,
{
    if k == 0 {
        1
    } else {
        31 * place((k - 1) as nat)
    }
}

/// Behind the same bytes hashes keep their distance, times the place.
proof fn lemma_distance(a: Seq<u8>, b: Seq<u8>, tail: Seq<u8>)
    ensures
        (command_hash(a + tail) - command_hash(b + tail) - place(tail.len()) * (command_hash(a)
            - command_hash(b))) % 0x1_0000_0000_0000_0000 == 0,
    decreases tail.len(),
{
    let m: int = 0x1_0000_0000_0000_0000;
    let (ha, hb) = (command_hash(a) as int, command_hash(b) as int);
    if tail.len() == 0 {
        assert(a + tail =~= a && b + tail =~= b);
        assert(ha - hb - 1 * (ha - hb) == 0);
    } else {
        let front = tail.drop_last();
        let c = tail.last() as int;
        lemma_distance(a, b, front);
        assert((a + tail).drop_last() =~= a + front);
        assert((b + tail).drop_last() =~= b + front);
        assert((a + tail).last() == tail.last() && (b + tail).last() == tail.last());
        let (x, y) = (command_hash(a + front) as int, command_hash(b + front) as int);
        let p = place(front.len());
        assert(place(tail.len()) == 31 * p);
        let (u, v) = (command_hash(a + tail) as int, command_hash(b + tail) as int);
        assert(u == (x * 31 + c) % m && v == (y * 31 + c) % m);
        let (i, j) = ((x * 31 + c) / m, (y * 31 + c) / m);
        vstd::arithmetic::div_mod::lemma_fundamental_div_mod(x * 31 + c, m);
        vstd::arithmetic::div_mod::lemma_fundamental_div_mod(y * 31 + c, m);
        let e = x - y - p * (ha - hb);
        let k = e / m;
        vstd::arithmetic::div_mod::lemma_fundamental_div_mod(e, m);
        let d = u - v - 31 * p * (ha - hb);
        assert(d == m * (31 * k - i + j)) by (nonlinear_arith)
            requires
                u == x * 31 + c - m * i,
                v == y * 31 + c - m * j,
                e == x - y - p * (ha - hb),
                e == m * k,
                d == u - v - 31 * p * (ha - hb),
        ;
        vstd::arithmetic::div_mod::lemma_mod_multiples_basic(31 * k - i + j, m);
        assert((31 * k - i + j) * m == m * (31 * k - i + j)) by (nonlinear_arith);
    }
}

/// A number below 256 in size and not zero stays no multiple of 256 times any place.
proof fn lemma_place_is_odd(k: nat, d: int)
    requires
        -256 < d < 256,
        d != 0,
    ensures
        (place(k) * d) % 256 != 0,
    decreases k,
{
    if k == 0 {
        assert(place(k) * d == d);
    } else {
        lemma_place_is_odd((k - 1) as nat, d);
        let x = place((k - 1) as nat) * d;
        assert(place(k) * d == 31 * x) by (nonlinear_arith)
            requires
                place(k) == 31 * place((k - 1) as nat),
                x == place((k - 1) as nat) * d,
        ;
        // 31 * 223 is one more than a multiple of 256.
        assert((31 * x) % 256 == 0 ==> x % 256 == 0);
    }
}

/// Commands that differ in one byte have different hashes, wherever that byte stands.
pub proof fn law_one_byte_makes_a_difference(head: Seq<u8>, a: u8, b: u8, tail: Seq<u8>)
    requires
        a != b,
    ensures
        command_hash(head.push(a) + tail) != command_hash(head.push(b) + tail),
{
    let m: int = 0x1_0000_0000_0000_0000;
    let (s, t) = (head.push(a), head.push(b));
    lemma_distance(s, t, tail);
    law_every_byte_counts(head, a);
    law_every_byte_counts(head, b);
    let h = command_hash(head) as int;
    let (x, y) = (command_hash(s) as int, command_hash(t) as int);
    let d = a as int - b as int;
    let p = place(tail.len());
    let (i, j) = ((31 * h + a) / m, (31 * h + b) / m);
    vstd::arithmetic::div_mod::lemma_fundamental_div_mod(31 * h + a, m);
    vstd::arithmetic::div_mod::lemma_fundamental_div_mod(31 * h + b, m);
    if command_hash(s + tail) == command_hash(t + tail) {
        let e = 0 - p * (x - y);
        let k = e / m;
        vstd::arithmetic::div_mod::lemma_fundamental_div_mod(e, m);
        let q = p * (i - j) - k;
        assert(p * d == m * q) by (nonlinear_arith)
            requires
                x == 31 * h + a - m * i,
                y == 31 * h + b - m * j,
                d == a - b,
                e == 0 - p * (x - y),
                e == m * k,
                q == p * (i - j) - k,
        ;
        lemma_place_is_odd(tail.len(), d);
        assert((p * d) % 256 == 0) by {
            let w = 0x100_0000_0000_0000 * q;
            assert(p * d == 256 * w);
        }
    }
}

/// Commands that differ in one byte have different sockets.
pub proof fn law_other_command_other_socket(
    a: Seq<char>,
    b: Seq<char>,
    head: Seq<u8>,
    x: u8,
    y: u8,
    tail: Seq<u8>,
)
    requires
        bytes_of(a) == head.push(x) + tail,
        bytes_of(b) == head.push(y) + tail,
        x != y,
    ensures
        socket_name(a) != socket_name(b),
{
    law_one_byte_makes_a_difference(head, x, y, tail);
    law_socket_tells_hashes_apart(a, b);
}

/// The socket of a command is named by the hash of its bytes, in hexadecimal digits.
pub proof fn law_socket_is_named_by_the_hash(command: Seq<char>)
    ensures
        socket_name(command) == "notfail-"@ + text::numeral(
            command_hash(vstd::utf8::encode_utf8(command)) as nat,
            16,
        ) + ".sock"@,
{
}

/// A name stands in a directory behind one slash, whether the directory is written with one at
/// its end or not.
pub proof fn law_one_slash_between(base: Seq<u8>, name: Seq<u8>)
    ensures
        base.len() > 0 && base.last() != 0x2f ==> inside(base, name) == base + seq![0x2fu8] + name,
        base.len() > 0 && base.last() != 0x2f ==> inside(base.push(0x2f), name) == inside(
            base,
            name,
        ),
        inside(Seq::empty(), name) == name,
        inside(base, name).skip(inside(base, name).len() - name.len()) == name,
        base.is_prefix_of(inside(base, name)),
{
    let r = inside(base, name);
    if base.len() > 0 && base.last() != 0x2f {
        assert(r =~= base + seq![0x2fu8] + name);
        assert(inside(base.push(0x2f), name) =~= r);
    }
    assert(inside(Seq::empty(), name) =~= name);
    assert(r.skip(r.len() - name.len()) =~= name);
    assert(r.take(base.len() as int) =~= base);
}

/// The socket lies with the session, where there is a directory for it; else with the caches; else
/// with the temporary files.
pub proof fn law_socket_lies_with_the_session(dir: Seq<u8>, cache: Option<Seq<u8>>)
    ensures
        socket_base(Some(dir), cache) == dir,
        socket_base(None, Some(dir)) == dir,
        socket_base(None, None) == vstd::utf8::encode_utf8("/tmp"@),
{
}

/// The cache file lies in a directory of its own with the caches, and with the temporary files
/// where there is none for caches.
pub proof fn law_cache_file_lies_with_the_caches(dir: Seq<u8>)
    requires
        dir.len() > 0,
        dir.last() != 0x2f,
    ensures
        cache_file(Some(dir)) == dir + vstd::utf8::encode_utf8("/notfail/test_cache.json"@),
        cache_file(None) == vstd::utf8::encode_utf8("/tmp/notfail/test_cache.json"@),
{
    lemma_ascii("/notfail/test_cache.json"@);
    lemma_ascii("/tmp/notfail/test_cache.json"@);
    lemma_ascii("notfail"@);
    lemma_ascii("test_cache.json"@);
    lemma_ascii("/tmp"@);
    reveal_strlit("/notfail/test_cache.json");
    reveal_strlit("/tmp/notfail/test_cache.json");
    reveal_strlit("notfail");
    reveal_strlit("test_cache.json");
    reveal_strlit("/tmp");
    assert(cache_file(Some(dir)) =~= dir + vstd::utf8::encode_utf8("/notfail/test_cache.json"@));
    assert(cache_file(None) =~= vstd::utf8::encode_utf8("/tmp/notfail/test_cache.json"@));
}

proof fn lemma_ascii(s: Seq<char>)
    ensures
        vstd::utf8::is_ascii_chars(s) ==> vstd::utf8::encode_utf8(s) == Seq::new(
            s.len(),
            |i: int| s[i] as u8,
        ),
{
    if vstd::utf8::is_ascii_chars(s) {
        vstd::utf8::is_ascii_chars_encode_utf8(s);
        assert forall|i: int| 0 <= i < s.len() implies vstd::utf8::encode_utf8(s)[i] == s[i] as u8 by {
            assert(s[i] as u8 == vstd::utf8::encode_utf8(s)[i]);
        }
        assert(vstd::utf8::encode_utf8(s) =~= Seq::new(s.len(), |i: int| s[i] as u8));
    }
}

} // verus!
