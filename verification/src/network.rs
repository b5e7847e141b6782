//! Correction-service plumbing: credential keys, the handshake request
//! and response check, and the uplink line a GPGGA sender writes.
//!
//! The TCP connection itself lives outside the library; everything here
//! computes from plain values to plain values.

use vstd::prelude::*;
use vstd::string::StrSliceExecFns;
use vstd::string::StringExecFns;

use crate::sentence::spec_rebuild;
use crate::sentence::rebuild_nema;

verus! {

/// A source of correction-service credentials. `get` yields the next
/// candidate key, already base64-encoded, or `None` when there is none;
/// implementations may read files or hold a compiled-in key.
pub trait QXWZAccount {
    fn get() -> Option<String>;
}

/// What `base64::encode` returns for the text `s`: standard alphabet,
/// with padding. The result depends on the characters alone.
pub uninterp spec fn base64_of(s: Seq<char>) -> Seq<char>;

/// Relies on `base64::encode` (standard configuration): the encoding is a
/// function of the input bytes alone, and an empty input encodes to an
/// empty string. The length bound keeps the computed output size within
/// `usize`.
#[verifier::external_body]
pub fn encode_base64(s: &str) -> (r: String)
    requires
        s@.len() <= 0x4000_0000_0000,
    ensures
        r@ == base64_of(s@),
        s@.len() == 0 ==> r@.len() == 0,
{
    base64::encode(s)
}

/// Index of the first `c` of `s` at or after `i`; `s.len()` if none.
pub open spec fn first_char_at(s: Seq<char>, i: int, c: char) -> int
    recommends
        0 <= i <= s.len(),
    decreases s.len() - i,
{
    if i < 0 || i >= s.len() {
        s.len() as int
    } else if s[i] == c {
        i
    } else {
        first_char_at(s, i + 1, c)
    }
}

/// `line` without a trailing carriage return.
pub open spec fn strip_cr(line: Seq<char>) -> Seq<char> {
    if line.len() > 0 && line.last() == '\r' {
        line.drop_last()
    } else {
        line
    }
}

/// The first line of `t`: everything before the first line feed, minus a
/// trailing carriage return.
pub open spec fn spec_first_line(t: Seq<char>) -> Seq<char> {
    strip_cr(t.take(first_char_at(t, 0, '\n')))
}

/// The lines of `t`, split on line feeds, each without its trailing
/// carriage return; a final line feed ends the last line rather than
/// opening an empty one.
pub open spec fn spec_lines(t: Seq<char>) -> Seq<Seq<char>>
    decreases t.len(),
{
    if t.len() == 0 {
        Seq::empty()
    } else {
        let p = first_char_at(t, 0, '\n');
        let line = strip_cr(t.take(p));
        if p < 0 || p >= t.len() {
            seq![line]
        } else {
            seq![line] + spec_lines(t.skip(p + 1))
        }
    }
}

/// The credential file: one `user:password` per line; the first line,
/// base64-encoded, is the candidate key.
pub struct AuthFile;

impl AuthFile {
    /// The key that the text of a credential file yields: its first line
    /// base64-encoded, or `None` when the text is empty. The caller
    /// reads the file and hands its text in.
    pub fn first_key(text: &str) -> (r: Option<String>)
        requires
            text@.len() <= 0x4000_0000_0000,
        ensures
            match r {
                Some(k) => text@.len() > 0 && k@ == base64_of(spec_first_line(text@)),
                None => text@.len() == 0,
            },
    {
        let n = text.unicode_len();
        if n == 0 {
            return None;
        }
        let p = find_line_feed(text, 0);
        proof {
            lemma_first_char_bounds(text@, 0, '\n');
        }
        let q = if p > 0 && text.get_char(p - 1) == '\r' {
            p - 1
        } else {
            p
        };
        let line = text.substring_char(0, q);
        proof {
            let l0 = text@.take(p as int);
            if q < p {
                assert(l0.last() == text@[p - 1]);
                assert(l0.drop_last() =~= text@.subrange(0, q as int));
            } else {
                if l0.len() > 0 {
                    assert(l0.last() == text@[p - 1]);
                }
                assert(l0 =~= text@.subrange(0, q as int));
            }
            assert(spec_first_line(text@) == text@.subrange(0, q as int));
        }
        Some(encode_base64(line))
    }

    /// Every candidate key that the text of a credential file yields:
    /// one per line, each line base64-encoded independently, in file
    /// order.
    #[verifier::loop_isolation(false)]
    pub fn keys_from_text(text: &str) -> (r: Vec<String>)
        requires
            text@.len() <= 0x4000_0000_0000,
        ensures
            r@.len() == spec_lines(text@).len(),
            forall|i: int| 0 <= i < r@.len() ==> r@[i]@ == base64_of(spec_lines(text@)[i]),
    {
        let n = text.unicode_len();
        let mut r: Vec<String> = Vec::new();
        let ghost mut done: Seq<Seq<char>> = Seq::empty();
        let mut pos: usize = 0;
        proof {
            assert(text@.skip(0) =~= text@);
            assert(done + spec_lines(text@) =~= spec_lines(text@));
        }
        while pos < n
            invariant
                pos <= n,
                spec_lines(text@) == done + spec_lines(text@.skip(pos as int)),
                r@.len() == done.len(),
                forall|i: int| 0 <= i < r@.len() ==> r@[i]@ == base64_of(done[i]),
            decreases n - pos,
        {
            let p = find_line_feed(text, pos);
            let q = if p > pos && text.get_char(p - 1) == '\r' {
                p - 1
            } else {
                p
            };
            let line = text.substring_char(pos, q);
            proof {
                let u = text@.skip(pos as int);
                lemma_char_shift_at(text@, pos as int, 0, '\n');
                let prel = first_char_at(u, 0, '\n');
                assert(prel == p - pos);
                assert(u.take(prel) =~= text@.subrange(pos as int, p as int));
                let l0 = text@.subrange(pos as int, p as int);
                if q < p {
                    assert(l0.last() == text@[p - 1]);
                    assert(l0.drop_last() =~= text@.subrange(pos as int, q as int));
                } else {
                    if l0.len() > 0 {
                        assert(l0.last() == text@[p - 1]);
                    }
                    assert(l0 =~= text@.subrange(pos as int, q as int));
                }
                assert(strip_cr(u.take(prel)) == text@.subrange(pos as int, q as int));
                if p < n {
                    assert(u.skip(prel + 1) =~= text@.skip(p + 1));
                    assert(spec_lines(u) == seq![strip_cr(u.take(prel))] + spec_lines(
                        text@.skip(p + 1),
                    ));
                } else {
                    assert(spec_lines(u) =~= seq![strip_cr(u.take(prel))]);
                    assert(text@.skip(n as int).len() == 0);
                }
                done = done.push(text@.subrange(pos as int, q as int));
                assert(done + spec_lines(text@.skip(if p < n { p + 1 } else { n as int }))
                    =~= done.drop_last() + spec_lines(u));
            }
            let key = encode_base64(line);
            r.push(key);
            pos = if p < n {
                p + 1
            } else {
                n
            };
        }
        proof {
            assert(spec_lines(text@.skip(n as int)) =~= Seq::<Seq<char>>::empty());
            assert(spec_lines(text@) =~= done);
        }
        r
    }
}

/// Index of the first line feed of `s` at or after `from`, or `s.len()`
/// if there is none.
fn find_line_feed(s: &str, from: usize) -> (p: usize)
    requires
        from <= s@.len(),
    ensures
        p == first_char_at(s@, from as int, '\n'),
        from <= p <= s@.len(),
        p < s@.len() ==> s@[p as int] == '\n',
{
    let n = s.unicode_len();
    let mut k: usize = from;
    while k < n
        invariant
            from <= k <= n,
            n == s@.len(),
            first_char_at(s@, from as int, '\n') == first_char_at(s@, k as int, '\n'),
        decreases n - k,
    {
        if s.get_char(k) == '\n' {
            return k;
        }
        k += 1;
    }
    n
}

/// The first position of `c` in `s[a..]`, at offset `j`, is the first
/// position of `c` in `s` at `a + j`, shifted.
proof fn lemma_char_shift_at(s: Seq<char>, a: int, j: int, c: char)
    requires
        0 <= a,
        0 <= j,
        a + j <= s.len(),
    ensures
        first_char_at(s.skip(a), j, c) == first_char_at(s, a + j, c) - a,
    decreases s.len() - a - j,
{
    let t = s.skip(a);
    if a + j == s.len() {
    } else if t[j] == c {
    } else {
        lemma_char_shift_at(s, a, j + 1, c);
    }
}

proof fn lemma_first_char_bounds(s: Seq<char>, i: int, c: char)
    requires
        0 <= i <= s.len(),
    ensures
        i <= first_char_at(s, i, c) <= s.len(),
        forall|j: int| i <= j < first_char_at(s, i, c) ==> s[j] != c,
        first_char_at(s, i, c) < s.len() ==> s[first_char_at(s, i, c)] == c,
    decreases s.len() - i,
{
    if i < s.len() && s[i] != c {
        lemma_first_char_bounds(s, i + 1, c);
    }
}

/// The request line the correction service expects: `GET /AUTO` with
/// HTTP Basic authorization carrying the base64 key.
pub open spec fn spec_auth_request(key: Seq<char>) -> Seq<char> {
    "GET /AUTO HTTP/1.1\r\nAuthorization: Basic "@ + key + "\r\n\r\n"@
}

/// Build the handshake request for one key.
pub fn auth_request(key: &str) -> (r: String)
    ensures
        r@ == spec_auth_request(key@),
{
    let mut r = String::from_str("GET /AUTO HTTP/1.1\r\nAuthorization: Basic ");
    r.append(key);
    r.append("\r\n\r\n");
    r
}

/// An ASCII whitespace character, as the response line may carry around
/// its status.
pub open spec fn is_ws(c: char) -> bool {
    c == ' ' || c == '\t' || c == '\r' || c == '\n'
}

/// `t` without leading and trailing ASCII whitespace.
pub open spec fn spec_trim(t: Seq<char>) -> Seq<char>
    decreases t.len(),
{
    if t.len() > 0 && is_ws(t[0]) {
        spec_trim(t.drop_first())
    } else if t.len() > 0 && is_ws(t.last()) {
        spec_trim(t.drop_last())
    } else {
        t
    }
}

/// The handshake succeeded: the response line, trimmed, is exactly
/// `ICY 200 OK`.
#[verifier::loop_isolation(false)]
pub fn handshake_ok(line: &str) -> (r: bool)
    ensures
        r == (spec_trim(line@) == "ICY 200 OK"@),
{
    let n = line.unicode_len();
    proof {
        assert(line@.subrange(0, n as int) =~= line@);
    }
    let mut a: usize = 0;
    while a < n && ws_at(line, a)
        invariant
            a <= n,
            n == line@.len(),
            spec_trim(line@) == spec_trim(line@.subrange(a as int, n as int)),
            forall|j: int| 0 <= j < a ==> is_ws(#[trigger] line@[j]),
        decreases n - a,
    {
        proof {
            let t = line@.subrange(a as int, n as int);
            assert(t.drop_first() =~= line@.subrange(a + 1, n as int));
        }
        a += 1;
    }
    let mut b: usize = n;
    while b > a && ws_at(line, b - 1)
        invariant
            a <= b <= n,
            n == line@.len(),
            spec_trim(line@) == spec_trim(line@.subrange(a as int, b as int)),
            forall|j: int| 0 <= j < a ==> is_ws(#[trigger] line@[j]),
            a < n ==> !is_ws(line@[a as int]),
        decreases b,
    {
        proof {
            let t = line@.subrange(a as int, b as int);
            assert(t.drop_last() =~= line@.subrange(a as int, b - 1));
            if t.len() > 0 && is_ws(t[0]) {
                assert(false);
            }
        }
        b -= 1;
    }
    proof {
        let t = line@.subrange(a as int, b as int);
        if t.len() > 0 {
            assert(!is_ws(t[0]));
            assert(t.last() == line@[b - 1]);
        }
        assert(spec_trim(t) == t);
        reveal_strlit("ICY 200 OK");
    }
    if !(b - a == 10) {
        return false;
    }
    let c0 = line.get_char(a);
    let c1 = line.get_char(a + 1);
    let c2 = line.get_char(a + 2);
    let c3 = line.get_char(a + 3);
    let c4 = line.get_char(a + 4);
    let c5 = line.get_char(a + 5);
    let c6 = line.get_char(a + 6);
    let c7 = line.get_char(a + 7);
    let c8 = line.get_char(a + 8);
    let c9 = line.get_char(a + 9);
    let ok = c0 == 'I' && c1 == 'C' && c2 == 'Y' && c3 == ' ' && c4 == '2' && c5 == '0' && c6
        == '0' && c7 == ' ' && c8 == 'O' && c9 == 'K';
    proof {
        let t = line@.subrange(a as int, b as int);
        if ok {
            assert(t =~= "ICY 200 OK"@);
        }
        if !ok && t == "ICY 200 OK"@ {
            assert(t[0] == 'I' && t[1] == 'C' && t[2] == 'Y' && t[3] == ' ' && t[4] == '2' && t[5]
                == '0' && t[6] == '0' && t[7] == ' ' && t[8] == 'O' && t[9] == 'K');
            assert(false);
        }
    }
    ok
}

/// The byte under index `i` of `s` is ASCII whitespace.
fn ws_at(s: &str, i: usize) -> (r: bool)
    requires
        i < s@.len(),
    ensures
        r == is_ws(s@[i as int]),
{
    let c = s.get_char(i);
    c == ' ' || c == '\t' || c == '\r' || c == '\n'
}

/// The talker id every uplink line carries: `GPGGA`.
pub open spec fn gpgga_talker() -> Seq<u8> {
    seq![71u8, 80u8, 71u8, 71u8, 65u8]
}

/// The line an uplink sender writes for a tail and checksum: the tail
/// re-emitted under the `GPGGA` talker id, terminated by CR LF.
pub open spec fn spec_uplink_line(tail: Seq<u8>, cs: u8) -> Seq<u8> {
    spec_rebuild(gpgga_talker(), tail, cs) + seq![13u8, 10u8]
}

/// Compose the uplink line for one forwarded GPGGA tail.
pub fn uplink_line(tail: &[u8], cs: u8) -> (r: Vec<u8>)
    ensures
        r@ == spec_uplink_line(tail@, cs),
{
    let mut head: Vec<u8> = Vec::new();
    head.push(71);
    head.push(80);
    head.push(71);
    head.push(71);
    head.push(65);
    proof {
        assert(head@ =~= gpgga_talker());
    }
    let mut r = rebuild_nema(head.as_slice(), tail, cs);
    r.push(13);
    r.push(10);
    proof {
        assert(r@ =~= spec_uplink_line(tail@, cs));
    }
    r
}

} // verus!
