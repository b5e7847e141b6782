//! Byte-oriented NMEA-0183 framer.
//!
//! A `Buffer<LEN>` is a fixed-capacity byte window over a noisy stream.
//! `to_write` compacts the window and reports how much room is left,
//! `extend` appends freshly received bytes, and `parse` recovers the next
//! complete, checksum-valid `$...*HH` sentence, skipping junk and corrupt
//! frames one byte at a time.

use vstd::prelude::*;

verus! {

/// ASCII `$`, the start of a checksummed sentence.
pub const START: u8 = 36;

/// ASCII `#`, the start of a proprietary sentence; a candidate start that
/// is never validated.
pub const PROPRIETARY: u8 = 35;

/// ASCII `*`, the checksum marker.
pub const STAR: u8 = 42;

/// ASCII carriage return.
pub const CR: u8 = 13;

/// ASCII line feed.
pub const LF: u8 = 10;

/// ASCII comma, the field separator of a sentence.
pub const COMMA: u8 = 44;

/// `b` is an ASCII hex digit, upper or lower case.
pub open spec fn is_hex_digit(b: u8) -> bool {
    (48 <= b && b <= 57) || (65 <= b && b <= 70) || (97 <= b && b <= 102)
}

/// Numeric value of the hex digit `b`.
pub open spec fn hex_val(b: u8) -> int {
    if 48 <= b && b <= 57 {
        b - 48
    } else if 65 <= b && b <= 70 {
        b - 55
    } else if 97 <= b && b <= 102 {
        b - 87
    } else {
        0
    }
}

/// XOR of all bytes of `s`: the NMEA checksum of a sentence body.
pub open spec fn xor_seq(s: Seq<u8>) -> u8
    decreases s.len(),
{
    if s.len() == 0 {
        0
    } else {
        xor_seq(s.drop_last()) ^ s.last()
    }
}

/// A byte that may stand in a sentence body: anything but `$`, `*`, CR, LF.
pub open spec fn is_body_byte(b: u8) -> bool {
    b != START && b != STAR && b != CR && b != LF
}

/// `s` is one complete valid sentence: `$<body>*HH`, where `<body>` holds
/// only body bytes and `HH` is the hex of `XOR(<body>)`.
pub open spec fn is_sentence(s: Seq<u8>) -> bool {
    &&& s.len() >= 4
    &&& s[0] == START
    &&& s[s.len() - 3] == STAR
    &&& (forall|k: int| 1 <= k < s.len() - 3 ==> is_body_byte(#[trigger] s[k]))
    &&& is_hex_digit(s[s.len() - 2])
    &&& is_hex_digit(s[s.len() - 1])
    &&& hex_val(s[s.len() - 2]) * 16 + hex_val(s[s.len() - 1]) == xor_seq(
        s.subrange(1, s.len() - 3),
    )
}

/// Some complete sentence begins at index `i` and ends by index `w` of `s`.
pub open spec fn starts_sentence(s: Seq<u8>, i: int, w: int) -> bool {
    exists|e: int| i + 4 <= e <= w && is_sentence(#[trigger] s.subrange(i, e))
}

/// `s` without its junk prefix: everything from the first candidate start
/// (`$` or `#`) on; empty if there is none.
pub open spec fn drop_junk(s: Seq<u8>) -> Seq<u8>
    decreases s.len(),
{
    if s.len() == 0 {
        s
    } else if s[0] == START || s[0] == PROPRIETARY {
        s
    } else {
        drop_junk(s.drop_first())
    }
}

/// Fixed-capacity frame buffer. `p_read` is the next candidate start,
/// `p_star` the next position that may hold `*`, `p_write` the tail of
/// valid bytes; `p_read <= p_star <= p_write <= LEN` always, and the
/// scanned region `[p_read, p_star)` holds no `*`.
pub struct Buffer<const LEN: usize> {
    pub buf: Vec<u8>,
    pub p_read: usize,
    pub p_star: usize,
    pub p_write: usize,
}

impl<const LEN: usize> Buffer<LEN> {
    /// Well-formedness: the window never exceeds LEN bytes.
    pub open spec fn wf(&self) -> bool {
        &&& 1 <= LEN
        &&& self.buf@.len() == LEN
        &&& self.p_read <= self.p_star <= self.p_write <= LEN
        &&& forall|k: int| self.p_read <= k < self.p_star ==> self.buf@[k] != STAR
    }

    /// The bytes received and not yet consumed.
    pub open spec fn contents(&self) -> Seq<u8> {
        self.buf@.subrange(self.p_read as int, self.p_write as int)
    }

    /// An empty buffer.
    pub fn new() -> (b: Self)
        requires
            1 <= LEN,
        ensures
            b.wf(),
            b.p_read == 0,
            b.p_star == 0,
            b.p_write == 0,
            b.contents() == Seq::<u8>::empty(),
    {
        let mut buf: Vec<u8> = Vec::new();
        while buf.len() < LEN
            invariant
                buf@.len() <= LEN,
            decreases LEN - buf@.len(),
        {
            buf.push(0);
        }
        let b = Buffer { buf, p_read: 0, p_star: 0, p_write: 0 };
        proof {
            assert(b.contents() =~= Seq::<u8>::empty());
        }
        b
    }

    /// Append `data`, which the caller has just received, to the window.
    pub fn extend(&mut self, data: &[u8])
        requires
            old(self).wf(),
            data@.len() <= LEN - old(self).p_write,
        ensures
            final(self).wf(),
            final(self).p_read == old(self).p_read,
            final(self).p_star == old(self).p_star,
            final(self).p_write == old(self).p_write + data@.len(),
            final(self).contents() == old(self).contents() + data@,
            final(self).buf@.subrange(0, old(self).p_write as int) == old(self).buf@.subrange(
                0,
                old(self).p_write as int,
            ),
    {
        let ghost w0 = self.p_write as int;
        let mut i: usize = 0;
        while i < data.len()
            invariant
                old(self).wf(),
                i <= data@.len(),
                data@.len() <= LEN - old(self).p_write,
                self.p_read == old(self).p_read,
                self.p_star == old(self).p_star,
                self.p_write == old(self).p_write,
                w0 == self.p_write as int,
                self.buf@.len() == LEN,
                forall|k: int| 0 <= k < w0 ==> self.buf@[k] == old(self).buf@[k],
                forall|k: int| 0 <= k < i ==> self.buf@[w0 + k] == data@[k],
            decreases data@.len() - i,
        {
            let idx = self.p_write + i;
            let b = data[i];
            self.buf[idx] = b;
            i += 1;
        }
        self.p_write = self.p_write + data.len();
        proof {
            assert(final(self).contents() =~= old(self).contents() + data@);
            assert(final(self).buf@.subrange(0, w0) =~= old(self).buf@.subrange(0, w0));
        }
    }

    /// The byte under `p_read` is junk: neither `$` nor `#`.
    fn junk_at_read(&self) -> (r: bool)
        requires
            self.p_read < self.p_write,
            self.p_write <= self.buf@.len(),
        ensures
            r == (self.buf@[self.p_read as int] != START && self.buf@[self.p_read as int]
                != PROPRIETARY),
    {
        let b = self.buf[self.p_read];
        b != START && b != PROPRIETARY
    }

    /// Advance `p_read` past junk bytes, stopping at the first candidate
    /// start (`$` or `#`) or at the end of the window.
    fn move_p_read(&mut self)
        requires
            old(self).wf(),
        ensures
            final(self).wf(),
            final(self).buf@ == old(self).buf@,
            final(self).p_write == old(self).p_write,
            old(self).p_read <= final(self).p_read,
            forall|k: int|
                old(self).p_read <= k < final(self).p_read ==> (old(self).buf@[k] != START
                    && old(self).buf@[k] != PROPRIETARY),
            final(self).p_read == final(self).p_write
                || final(self).buf@[final(self).p_read as int] == START
                || final(self).buf@[final(self).p_read as int] == PROPRIETARY,
            final(self).contents() == drop_junk(old(self).contents()),
    {
        let ghost c0 = old(self).contents();
        while self.p_read < self.p_write && self.junk_at_read()
            invariant
                old(self).wf(),
                self.buf@ == old(self).buf@,
                self.p_write == old(self).p_write,
                self.p_star == old(self).p_star,
                old(self).p_read <= self.p_read <= self.p_write,
                forall|k: int|
                    old(self).p_read <= k < self.p_read ==> (old(self).buf@[k] != START
                        && old(self).buf@[k] != PROPRIETARY),
                drop_junk(c0) == drop_junk(
                    self.buf@.subrange(self.p_read as int, self.p_write as int),
                ),
            decreases self.p_write - self.p_read,
        {
            proof {
                let c = self.buf@.subrange(self.p_read as int, self.p_write as int);
                assert(c.drop_first() =~= self.buf@.subrange(
                    self.p_read + 1,
                    self.p_write as int,
                ));
            }
            self.p_read += 1;
        }
        if self.p_star < self.p_read {
            self.p_star = self.p_read;
        }
        proof {
            let c = final(self).contents();
            if self.p_read < self.p_write {
                assert(c.len() > 0 && (c[0] == START || c[0] == PROPRIETARY));
            } else {
                assert(c =~= Seq::<u8>::empty());
            }
        }
    }

    /// Compact the window: drop the junk prefix, move the live region to
    /// offset 0 and report how many bytes of room are left for the caller
    /// to fill through `extend`. After a `parse` that returned `None`
    /// there is always at least one byte of room.
    pub fn to_write(&mut self) -> (n: usize)
        requires
            old(self).wf(),
        ensures
            final(self).wf(),
            final(self).p_read == 0,
            n == LEN - final(self).p_write,
            final(self).contents() == drop_junk(old(self).contents()),
            old(self).p_write - old(self).p_read < LEN ==> n >= 1,
    {
        self.move_p_read();
        if self.p_read > 0 {
            let r = self.p_read;
            let w = self.p_write;
            let s = self.p_star;
            let ghost mid = self.buf@;
            let mut i: usize = 0;
            while i < w - r
                invariant
                    r <= s <= w <= LEN,
                    0 < r,
                    i <= w - r,
                    self.buf@.len() == LEN,
                    forall|k: int| 0 <= k < i ==> self.buf@[k] == mid[r + k],
                    forall|k: int| r + i <= k < LEN ==> self.buf@[k] == mid[k],
                decreases w - r - i,
            {
                let b = self.buf[r + i];
                self.buf[i] = b;
                i += 1;
            }
            self.p_write = w - r;
            self.p_star = s - r;
            self.p_read = 0;
            proof {
                assert(final(self).contents() =~= mid.subrange(r as int, w as int));
                assert forall|k: int|
                    final(self).p_read <= k < final(self).p_star implies final(self).buf@[k]
                    != STAR by {
                    assert(final(self).buf@[k] == mid[r + k]);
                }
            }
        }
        LEN - self.p_write
    }
}

/// XOR checksum of a byte slice, as the framer computes it.
pub fn xor(buf: &[u8]) -> (r: u8)
    ensures
        r == xor_seq(buf@),
{
    let mut sum: u8 = 0;
    let mut i: usize = 0;
    while i < buf.len()
        invariant
            i <= buf@.len(),
            sum == xor_seq(buf@.subrange(0, i as int)),
        decreases buf@.len() - i,
    {
        proof {
            let p = buf@.subrange(0, i + 1);
            assert(p.drop_last() =~= buf@.subrange(0, i as int));
            assert(p.last() == buf@[i as int]);
        }
        sum = sum ^ buf[i];
        i += 1;
    }
    proof {
        assert(buf@.subrange(0, buf@.len() as int) =~= buf@);
    }
    sum
}


/// A sentence that starts at `i` and has no `*` before position `q`
/// (which holds one) must end exactly at `q + 3`.
proof fn lemma_sentence_end(s: Seq<u8>, i: int, e: int, q: int)
    requires
        0 <= i,
        i + 4 <= e <= s.len(),
        is_sentence(s.subrange(i, e)),
        i < q < s.len(),
        s[q] == STAR,
        forall|k: int| i + 1 <= k < q ==> s[k] != STAR,
    ensures
        e == q + 3,
{
    let sub = s.subrange(i, e);
    assert(sub[sub.len() - 3] == STAR);
    assert(sub[e - 3 - i] == s[e - 3]);
    if e - 3 < q {
        assert(s[e - 3] != STAR);
        assert(false);
    }
    if e - 3 > q {
        assert(is_body_byte(sub[q - i]));
        assert(sub[q - i] == s[q]);
        assert(false);
    }
}

/// Numeric value of one hex digit byte, or `None` if `byte` is no hex
/// digit.
fn parse_u8(byte: u8) -> (r: Option<u8>)
    ensures
        match r {
            Some(v) => is_hex_digit(byte) && v == hex_val(byte),
            None => !is_hex_digit(byte),
        },
{
    if 48 <= byte && byte <= 57 {
        Some(byte - 48)
    } else if 65 <= byte && byte <= 70 {
        Some(byte - 55)
    } else if 97 <= byte && byte <= 102 {
        Some(byte - 87)
    } else {
        None
    }
}

/// Value of the two checksum digits, or `None` if either is no hex digit.
fn parse_cs(hi: u8, lo: u8) -> (r: Option<u8>)
    ensures
        match r {
            Some(v) => is_hex_digit(hi) && is_hex_digit(lo) && v == hex_val(hi) * 16 + hex_val(
                lo,
            ),
            None => !(is_hex_digit(hi) && is_hex_digit(lo)),
        },
{
    match (parse_u8(hi), parse_u8(lo)) {
        (Some(h), Some(l)) => Some(h * 16 + l),
        _ => None,
    }
}

impl<const LEN: usize> Buffer<LEN> {
    /// Scan forward from `p_star` to the first `*`. Return the two bytes
    /// after it when they are in the window; otherwise give the candidate
    /// up when it can no longer complete within the capacity, and report
    /// that more bytes are needed.
    fn get_checksum_or_move_p(&mut self) -> (r: Option<(u8, u8)>)
        requires
            old(self).wf(),
            old(self).p_read < old(self).p_write,
        ensures
            final(self).wf(),
            final(self).buf@ == old(self).buf@,
            final(self).p_write == old(self).p_write,
            old(self).p_read <= final(self).p_read,
            match r {
                Some(hl) => {
                    &&& final(self).p_read == old(self).p_read
                    &&& old(self).p_star <= final(self).p_star
                    &&& final(self).p_star + 3 <= final(self).p_write
                    &&& final(self).buf@[final(self).p_star as int] == STAR
                    &&& hl.0 == final(self).buf@[final(self).p_star + 1]
                    &&& hl.1 == final(self).buf@[final(self).p_star + 2]
                },
                None => {
                    &&& forall|k: int|
                        old(self).p_star <= k < old(self).p_write && old(self).buf@[k] == STAR
                            ==> k + 3 > old(self).p_write
                    &&& final(self).p_write - final(self).p_read < LEN
                },
            },
    {
        while self.p_star < self.p_write
            invariant
                self.wf(),
                1 <= LEN,
                self.buf@ == old(self).buf@,
                self.p_write == old(self).p_write,
                self.p_read == old(self).p_read,
                self.p_read < self.p_write,
                old(self).p_star <= self.p_star,
                forall|k: int| old(self).p_star <= k < self.p_star ==> self.buf@[k] != STAR,
            decreases self.p_write - self.p_star,
        {
            let b = self.buf[self.p_star];
            if b == STAR {
                if self.p_write - self.p_star >= 3 {
                    let h = self.buf[self.p_star + 1];
                    let l = self.buf[self.p_star + 2];
                    return Some((h, l));
                }
                proof {
                    let q = self.p_star as int;
                    let w = old(self).p_write as int;
                    assert forall|k: int|
                        old(self).p_star <= k < w && old(self).buf@[k] == STAR implies k + 3
                        > w by {
                        if k < q {
                            assert(self.buf@[k] != STAR);
                        } else {
                            assert(q + 3 > w);
                        }
                    }
                }
                // the two digits are not in yet; give the candidate up when
                // they could never fit within the capacity
                if LEN - (self.p_star - self.p_read) <= 3 {
                    self.p_read = self.p_star + 1;
                    self.p_star = self.p_read;
                }
                return None;
            }
            self.p_star += 1;
        }
        proof {
            let w = old(self).p_write as int;
            assert forall|k: int|
                old(self).p_star <= k < w && old(self).buf@[k] == STAR implies k + 3 > w by {
                assert(k < self.p_star);
                assert(self.buf@[k] != STAR);
            }
        }
        // no `*` up to the tail; give the candidate up when no frame
        // starting at `p_read` could still complete within the capacity
        if LEN - (self.p_write - self.p_read) <= 2 {
            self.p_read += 1;
            if self.p_star < self.p_read {
                self.p_star = self.p_read;
            }
        }
        None
    }

    /// Recover the next complete, checksum-valid sentence, or `None` when
    /// more bytes are needed. Junk and corrupt frames before the sentence
    /// are consumed; no byte that could start a complete sentence in the
    /// present window is ever skipped. After a `None` the window always
    /// has room for at least one more byte.
    pub fn parse(&mut self) -> (r: Option<Vec<u8>>)
        requires
            old(self).wf(),
        ensures
            final(self).wf(),
            final(self).buf@ == old(self).buf@,
            final(self).p_write == old(self).p_write,
            old(self).p_read <= final(self).p_read,
            match r {
                Some(v) => {
                    &&& 4 <= v@.len()
                    &&& old(self).p_read + v@.len() <= final(self).p_read <= old(self).p_write
                    &&& is_sentence(v@)
                    &&& v@ == old(self).buf@.subrange(
                        final(self).p_read - v@.len(),
                        final(self).p_read as int,
                    )
                    &&& forall|i: int|
                        old(self).p_read <= i < final(self).p_read - v@.len()
                            ==> !starts_sentence(old(self).buf@, i, old(self).p_write as int)
                },
                None => {
                    &&& forall|i: int|
                        old(self).p_read <= i < old(self).p_write ==> !starts_sentence(
                            old(self).buf@,
                            i,
                            old(self).p_write as int,
                        )
                    &&& final(self).p_write - final(self).p_read < LEN
                },
            },
    {
        let ghost bufv = old(self).buf@;
        let ghost r0 = old(self).p_read as int;
        let ghost w = old(self).p_write as int;
        loop
            invariant
                self.wf(),
                self.buf@ == bufv,
                self.p_write as int == w,
                r0 <= self.p_read,
                bufv == old(self).buf@,
                r0 == old(self).p_read as int,
                w == old(self).p_write as int,
                forall|i: int| r0 <= i < self.p_read ==> !starts_sentence(bufv, i, w),
            decreases self.p_write - self.p_read,
        {
            if self.p_write == self.p_read {
                return None;
            }
            let b = self.buf[self.p_read];
            if b == START {
                let ghost star0 = self.p_star as int;
                let ghost rd0 = self.p_read as int;
                match self.get_checksum_or_move_p() {
                    None => {
                        proof {
                            assert forall|i: int| r0 <= i < w implies !starts_sentence(
                                bufv,
                                i,
                                w,
                            ) by {
                                if starts_sentence(bufv, i, w) {
                                    if i < rd0 {
                                        assert(!starts_sentence(bufv, i, w));
                                    } else {
                                        let e = choose|e: int|
                                            i + 4 <= e <= w && is_sentence(
                                                #[trigger] bufv.subrange(i, e),
                                            );
                                        let s = bufv.subrange(i, e);
                                        assert(s[s.len() - 3] == STAR);
                                        assert(bufv[e - 3] == s[e - 3 - i]);
                                        assert(e - 3 >= star0);
                                        assert(e - 3 + 3 > w);
                                    }
                                    assert(false);
                                }
                            }
                        }
                        return None;
                    },
                    Some((h, l)) => {
                        let ghost star1 = self.p_star as int;
                        match parse_cs(h, l) {
                            None => {
                                proof {
                                    let rd = self.p_read as int;
                                    assert forall|i: int|
                                        rd <= i <= star1 implies !starts_sentence(bufv, i, w) by {
                                        if starts_sentence(bufv, i, w) {
                                            let e = choose|e: int|
                                                i + 4 <= e <= w && is_sentence(
                                                    #[trigger] bufv.subrange(i, e),
                                                );
                                            let s = bufv.subrange(i, e);
                                            if i == star1 {
                                                assert(s[0] == START);
                                                assert(false);
                                            } else {
                                                lemma_sentence_end(bufv, i, e, star1);
                                                assert(s[s.len() - 2] == bufv[star1 + 1]);
                                                assert(s[s.len() - 1] == bufv[star1 + 2]);
                                                assert(false);
                                            }
                                        }
                                    }
                                }
                                let next = self.p_star + 1;
                                self.p_read = next;
                                self.p_star = next;
                            },
                            Some(cs) => {
                                let start = self.p_read;
                                let star = self.p_star;
                                let mut sum: u8 = 0;
                                let mut ok = true;
                                let mut k = start + 1;
                                while k < star
                                    invariant
                                        self.wf(),
                                        self.buf@ == bufv,
                                        start + 1 <= k <= star,
                                        start == self.p_read,
                                        star == self.p_star,
                                        star + 3 <= self.p_write,
                                        sum == xor_seq(bufv.subrange(start + 1, k as int)),
                                        ok <==> (forall|j: int|
                                            start + 1 <= j < k ==> bufv[j] != START && bufv[j]
                                                != CR && bufv[j] != LF),
                                    decreases star - k,
                                {
                                    proof {
                                        let p = bufv.subrange(start + 1, k + 1);
                                        assert(p.drop_last() =~= bufv.subrange(
                                            start + 1,
                                            k as int,
                                        ));
                                        assert(p.last() == bufv[k as int]);
                                    }
                                    let c = self.buf[k];
                                    sum = sum ^ c;
                                    if c == START || c == CR || c == LF {
                                        ok = false;
                                    }
                                    k += 1;
                                }
                                if ok && sum == cs {
                                    let mut out: Vec<u8> = Vec::new();
                                    let mut k2 = start;
                                    while k2 < star + 3
                                        invariant
                                            self.wf(),
                                            self.buf@ == bufv,
                                            start == self.p_read,
                                            star == self.p_star,
                                            star + 3 <= self.p_write,
                                            start <= k2 <= star + 3,
                                            out@ == bufv.subrange(start as int, k2 as int),
                                        decreases star + 3 - k2,
                                    {
                                        let c = self.buf[k2];
                                        out.push(c);
                                        proof {
                                            assert(out@ =~= bufv.subrange(
                                                start as int,
                                                k2 + 1,
                                            ));
                                        }
                                        k2 += 1;
                                    }
                                    let newread = star + 3;
                                    self.p_read = newread;
                                    self.p_star = newread;
                                    proof {
                                        let v = out@;
                                        let n = v.len() as int;
                                        assert(star1 == star as int);
                                        assert(bufv[start as int] == START);
                                        assert(v[0] == bufv[start as int]);
                                        assert(v[n - 3] == bufv[star as int]);
                                        assert forall|kk: int| 1 <= kk < n - 3 implies is_body_byte(
                                            #[trigger] v[kk],
                                        ) by {
                                            assert(v[kk] == bufv[start + kk]);
                                        }
                                        assert(v[n - 2] == bufv[star + 1]);
                                        assert(v[n - 1] == bufv[star + 2]);
                                        assert(v.subrange(1, n - 3) =~= bufv.subrange(
                                            start + 1,
                                            star as int,
                                        ));
                                        assert(is_sentence(v));
                                    }
                                    return Some(out);
                                } else {
                                    proof {
                                        let st = start as int;
                                        if starts_sentence(bufv, st, w) {
                                            let e = choose|e: int|
                                                st + 4 <= e <= w && is_sentence(
                                                    #[trigger] bufv.subrange(st, e),
                                                );
                                            lemma_sentence_end(bufv, st, e, star1);
                                            let s = bufv.subrange(st, e);
                                            assert(s.subrange(1, s.len() - 3) =~= bufv.subrange(
                                                st + 1,
                                                star1,
                                            ));
                                            assert(s[s.len() - 2] == bufv[star1 + 1]);
                                            assert(s[s.len() - 1] == bufv[star1 + 2]);
                                            if !ok {
                                                let j = choose|j: int|
                                                    start + 1 <= j < star1 && !(bufv[j] != START
                                                        && bufv[j] != CR && bufv[j] != LF);
                                                assert(s[j - st] == bufv[j]);
                                                assert(is_body_byte(s[j - st]));
                                                assert(false);
                                            } else {
                                                assert(xor_seq(s.subrange(1, s.len() - 3))
                                                    == sum);
                                                assert(false);
                                            }
                                        }
                                    }
                                    self.p_read = start + 1;
                                }
                            },
                        }
                    },
                }
            } else if b == PROPRIETARY {
                proof {
                    let rd = self.p_read as int;
                    if starts_sentence(bufv, rd, w) {
                        let e = choose|e: int|
                            rd + 4 <= e <= w && is_sentence(#[trigger] bufv.subrange(rd, e));
                        let s = bufv.subrange(rd, e);
                        assert(s[0] == bufv[rd]);
                        assert(false);
                    }
                }
                let next = self.p_read + 1;
                self.p_read = next;
                if self.p_star < next {
                    self.p_star = next;
                }
            } else {
                let ghost rd = self.p_read as int;
                self.move_p_read();
                proof {
                    assert(self.p_read > rd);
                    assert forall|i: int| rd <= i < self.p_read implies !starts_sentence(
                        bufv,
                        i,
                        w,
                    ) by {
                        if starts_sentence(bufv, i, w) {
                            let e = choose|e: int|
                                i + 4 <= e <= w && is_sentence(#[trigger] bufv.subrange(i, e));
                            let s = bufv.subrange(i, e);
                            assert(s[0] == bufv[i]);
                            assert(false);
                        }
                    }
                }
            }
        }
    }
}


/// Junk is transparent to the framer: in a window that holds arbitrary
/// non-`$` bytes, then one valid sentence, then anything, no sentence
/// starts inside the junk, the embedded sentence is a sentence of the
/// window, and no other end matches at its position. With `parse`'s
/// contract this pins what the framer emits: exactly the embedded
/// sentence, whatever junk stands before it.
pub proof fn lemma_junk_transparent(j: Seq<u8>, s: Seq<u8>, r: Seq<u8>)
    requires
        forall|k: int| 0 <= k < j.len() ==> j[k] != START,
        is_sentence(s),
    ensures
        forall|i: int|
            0 <= i < j.len() ==> !starts_sentence(j + s + r, i, (j + s + r).len() as int),
        is_sentence((j + s + r).subrange(j.len() as int, (j.len() + s.len()) as int)),
        forall|e: int|
            j.len() + 4 <= e <= (j + s + r).len() && is_sentence(
                #[trigger] (j + s + r).subrange(j.len() as int, e),
            ) ==> e == j.len() + s.len() as int,
{
    let c = j + s + r;
    let n = j.len() as int;
    let w = c.len() as int;
    assert forall|i: int| 0 <= i < n implies !starts_sentence(c, i, w) by {
        if starts_sentence(c, i, w) {
            let e = choose|e: int| i + 4 <= e <= w && is_sentence(#[trigger] c.subrange(i, e));
            assert(c.subrange(i, e)[0] == c[i]);
            assert(c[i] == j[i]);
            assert(false);
        }
    }
    assert(c.subrange(n, n + s.len()) =~= s);
    let q = n + s.len() - 3;
    assert(c[q] == s[s.len() - 3]);
    assert forall|e: int|
        n + 4 <= e <= w && is_sentence(#[trigger] c.subrange(n, e)) implies e == n
        + s.len() by {
        assert forall|k: int| n + 1 <= k < q implies c[k] != STAR by {
            assert(c[k] == s[k - n]);
            assert(is_body_byte(s[k - n]));
        }
        lemma_sentence_end(c, n, e, q);
    }
}


/// Index of the first position in `[i, w)` where a complete sentence of
/// `s[..w]` begins; `w` if there is none.
pub open spec fn first_start(s: Seq<u8>, i: int, w: int) -> int
    recommends
        0 <= i <= w <= s.len(),
    decreases w - i,
{
    if i < 0 || i >= w {
        w
    } else if starts_sentence(s, i, w) {
        i
    } else {
        first_start(s, i + 1, w)
    }
}

/// The end of the sentence that begins at `j` within `s[..w]`.
pub open spec fn sentence_end(s: Seq<u8>, j: int, w: int) -> int {
    choose|e: int| j + 4 <= e <= w && is_sentence(#[trigger] s.subrange(j, e))
}

/// The maximal non-overlapping sentences of `s[i..w]`, taken left to
/// right: what repeated `parse` calls emit from a window holding these
/// bytes, by `parse`'s contract together with `lemma_extract_step` and
/// `lemma_extract_none`.
pub open spec fn extract_from(s: Seq<u8>, i: int, w: int) -> Seq<Seq<u8>>
    decreases w - i,
{
    if i < 0 || w > s.len() || i >= w {
        Seq::empty()
    } else {
        let j = first_start(s, i, w);
        if j >= w {
            Seq::empty()
        } else {
            let e = sentence_end(s, j, w);
            if e <= j || j < i || e > w {
                Seq::empty()
            } else {
                seq![s.subrange(j, e)] + extract_from(s, e, w)
            }
        }
    }
}

proof fn lemma_first_start_eq(s: Seq<u8>, i: int, j: int, w: int)
    requires
        0 <= i <= j < w,
        starts_sentence(s, j, w),
        forall|k: int| i <= k < j ==> !starts_sentence(s, k, w),
    ensures
        first_start(s, i, w) == j,
    decreases j - i,
{
    if i < j {
        lemma_first_start_eq(s, i + 1, j, w);
    }
}

/// A sentence beginning at `j` has exactly one end: the body may hold no
/// `*`, so the checksum marker is forced.
proof fn lemma_sentence_end_unique(s: Seq<u8>, j: int, e1: int, e2: int)
    requires
        0 <= j,
        j + 4 <= e1 <= s.len(),
        j + 4 <= e2 <= s.len(),
        is_sentence(s.subrange(j, e1)),
        is_sentence(s.subrange(j, e2)),
    ensures
        e1 == e2,
{
    let sub = s.subrange(j, e1);
    let q = e1 - 3;
    assert(sub[sub.len() - 3] == STAR);
    assert(s[q] == sub[q - j]);
    assert forall|k: int| j + 1 <= k < q implies s[k] != STAR by {
        assert(s[k] == sub[k - j]);
        assert(is_body_byte(sub[k - j]));
    }
    lemma_sentence_end(s, j, e2, q);
}

/// One step of extraction: when the leftmost complete sentence of
/// `s[r0..w]` stands at `[j, e)` — exactly what `parse` returns and
/// consumes — the extraction is that sentence followed by the
/// extraction of the rest.
pub proof fn lemma_extract_step(s: Seq<u8>, r0: int, j: int, e: int, w: int)
    requires
        0 <= r0 <= j,
        j + 4 <= e <= w <= s.len(),
        is_sentence(s.subrange(j, e)),
        forall|i: int| r0 <= i < j ==> !starts_sentence(s, i, w),
    ensures
        extract_from(s, r0, w) == seq![s.subrange(j, e)] + extract_from(s, e, w),
{
    assert(starts_sentence(s, j, w));
    lemma_first_start_eq(s, r0, j, w);
    let ec = sentence_end(s, j, w);
    assert(j + 4 <= ec <= w && is_sentence(s.subrange(j, ec)));
    lemma_sentence_end_unique(s, j, ec, e);
}

/// The end of extraction: when no complete sentence begins anywhere in
/// `s[r0..w]` — exactly when `parse` returns `None` — the extraction is
/// empty.
pub proof fn lemma_extract_none(s: Seq<u8>, r0: int, w: int)
    requires
        0 <= r0 <= w <= s.len(),
        forall|i: int| r0 <= i < w ==> !starts_sentence(s, i, w),
    ensures
        extract_from(s, r0, w) == Seq::<Seq<u8>>::empty(),
{
    let j = first_start(s, r0, w);
    if j < w {
        lemma_first_start_is_start(s, r0, w);
        assert(false);
    }
}

proof fn lemma_first_start_is_start(s: Seq<u8>, i: int, w: int)
    requires
        0 <= i <= w <= s.len(),
    ensures
        i <= first_start(s, i, w) <= w,
        first_start(s, i, w) < w ==> starts_sentence(s, first_start(s, i, w), w),
    decreases w - i,
{
    if i < w && !starts_sentence(s, i, w) {
        lemma_first_start_is_start(s, i + 1, w);
    }
}


proof fn lemma_starts_shift(x: Seq<u8>, y: Seq<u8>, i: int)
    requires
        0 <= i < y.len(),
    ensures
        starts_sentence(x + y, x.len() + i, (x + y).len() as int) == starts_sentence(
            y,
            i,
            y.len() as int,
        ),
{
    let c = x + y;
    let xl = x.len() as int;
    let w = c.len() as int;
    if starts_sentence(c, xl + i, w) {
        let e = choose|e: int|
            xl + i + 4 <= e <= w && is_sentence(#[trigger] c.subrange(xl + i, e));
        assert(y.subrange(i, e - xl) =~= c.subrange(xl + i, e));
        assert(starts_sentence(y, i, y.len() as int));
    }
    if starts_sentence(y, i, y.len() as int) {
        let e = choose|e: int|
            i + 4 <= e <= y.len() && is_sentence(#[trigger] y.subrange(i, e));
        assert(c.subrange(xl + i, xl + e) =~= y.subrange(i, e));
        assert(starts_sentence(c, xl + i, w));
    }
}

proof fn lemma_first_start_shift(x: Seq<u8>, y: Seq<u8>, i: int)
    requires
        0 <= i <= y.len(),
    ensures
        first_start(x + y, x.len() + i, (x + y).len() as int) == x.len() + first_start(
            y,
            i,
            y.len() as int,
        ),
    decreases y.len() - i,
{
    if i < y.len() {
        lemma_starts_shift(x, y, i);
        if !starts_sentence(y, i, y.len() as int) {
            lemma_first_start_shift(x, y, i + 1);
        }
    }
}

proof fn lemma_extract_shift(x: Seq<u8>, y: Seq<u8>, i: int)
    requires
        0 <= i <= y.len(),
    ensures
        extract_from(x + y, x.len() + i, (x + y).len() as int) == extract_from(
            y,
            i,
            y.len() as int,
        ),
    decreases y.len() - i,
{
    let c = x + y;
    let xl = x.len() as int;
    let w = c.len() as int;
    let yw = y.len() as int;
    lemma_first_start_shift(x, y, i);
    let jy = first_start(y, i, yw);
    lemma_first_start_is_start(y, i, yw);
    if jy >= yw {
    } else {
        assert(starts_sentence(y, jy, yw));
        let ey = choose|e: int| jy + 4 <= e <= yw && is_sentence(#[trigger] y.subrange(jy, e));
        let ey0 = sentence_end(y, jy, yw);
        lemma_sentence_end_unique(y, jy, ey0, ey);
        let ec = sentence_end(c, xl + jy, w);
        assert(c.subrange(xl + jy, xl + ey) =~= y.subrange(jy, ey));
        assert(xl + jy + 4 <= xl + ey <= w && is_sentence(c.subrange(xl + jy, xl + ey)));
        assert(is_sentence(c.subrange(xl + jy, ec)) && xl + jy + 4 <= ec <= w);
        lemma_sentence_end_unique(c, xl + jy, ec, xl + ey);
        assert(c.subrange(xl + jy, ec) =~= y.subrange(jy, ey0));
        lemma_extract_shift(x, y, ey);
        assert(extract_from(c, xl + i, w) =~= extract_from(y, i, yw));
    }
}

/// The pieces of an interleaved stream: before each sentence its stretch
/// of junk, sentence by sentence.
pub open spec fn cat_pieces(js: Seq<Seq<u8>>, ss: Seq<Seq<u8>>) -> Seq<u8>
    recommends
        js.len() == ss.len(),
    decreases ss.len(),
{
    if ss.len() == 0 || js.len() != ss.len() {
        Seq::empty()
    } else {
        js[0] + ss[0] + cat_pieces(js.drop_first(), ss.drop_first())
    }
}

/// Framer idempotence under junk: a window holding any interleaving of
/// junk stretches (bytes that are never `$`) and valid sentences
/// extracts exactly the sentences, in order — the junk alters nothing.
/// By `parse`'s contract together with `lemma_extract_step` and
/// `lemma_extract_none`, this is what repeated `parse` calls emit.
pub proof fn lemma_extract_of_interleaving(js: Seq<Seq<u8>>, ss: Seq<Seq<u8>>, jt: Seq<u8>)
    requires
        js.len() == ss.len(),
        forall|i: int, k: int|
            0 <= i < js.len() && 0 <= k < js[i].len() ==> #[trigger] js[i][k] != START,
        forall|i: int| 0 <= i < ss.len() ==> is_sentence(#[trigger] ss[i]),
        forall|k: int| 0 <= k < jt.len() ==> jt[k] != START,
    ensures
        extract_from(cat_pieces(js, ss) + jt, 0, (cat_pieces(js, ss) + jt).len() as int) == ss,
    decreases ss.len(),
{
    let c = cat_pieces(js, ss) + jt;
    let w = c.len() as int;
    if ss.len() == 0 {
        assert(c =~= jt);
        assert forall|i: int| 0 <= i < w implies !starts_sentence(c, i, w) by {
            if starts_sentence(c, i, w) {
                let e = choose|e: int|
                    i + 4 <= e <= w && is_sentence(#[trigger] c.subrange(i, e));
                assert(c.subrange(i, e)[0] == c[i]);
                assert(false);
            }
        }
        lemma_extract_none(c, 0, w);
        assert(extract_from(c, 0, w) =~= ss);
    } else {
        let j0 = js[0];
        let s0 = ss[0];
        let rest = cat_pieces(js.drop_first(), ss.drop_first()) + jt;
        let head = j0 + s0;
        assert(c =~= head + rest);
        let jl = j0.len() as int;
        let e0 = jl + s0.len() as int;
        assert(c.subrange(jl, e0) =~= s0);
        assert forall|i: int| 0 <= i < jl implies !starts_sentence(c, i, w) by {
            if starts_sentence(c, i, w) {
                let e = choose|e: int|
                    i + 4 <= e <= w && is_sentence(#[trigger] c.subrange(i, e));
                assert(c.subrange(i, e)[0] == c[i]);
                assert(c[i] == j0[i]);
                assert(false);
            }
        }
        lemma_extract_step(c, 0, jl, e0, w);
        lemma_extract_shift(head, rest, 0);
        assert(head.len() + 0 == e0);
        lemma_extract_of_interleaving(js.drop_first(), ss.drop_first(), jt);
        assert forall|i: int, k: int|
            0 <= i < js.drop_first().len() && 0 <= k < js.drop_first()[i].len()
            implies #[trigger] js.drop_first()[i][k] != START by {
            assert(js.drop_first()[i] == js[i + 1]);
        }
        assert(extract_from(rest, 0, rest.len() as int) == ss.drop_first());
        assert(extract_from(c, 0, w) =~= seq![s0] + ss.drop_first());
        assert(seq![s0] + ss.drop_first() =~= ss);
    }
}

} // verus!
