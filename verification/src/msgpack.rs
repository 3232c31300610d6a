//! The binary layer of the wire envelope: canonical MessagePack encoding of
//! the scalar shapes the protocol uses (unsigned integers, strings,
//! booleans, nil, 32-bit floats, and map / array headers).
//!
//! Encoders emit exactly the minimal (canonical) form; decoders accept
//! exactly that form. Every decoder states both exactness (what it accepted
//! is the encoding of what it returned) and completeness (on an encoding it
//! cannot fail), which together give the envelope round-trip laws.

use vstd::prelude::*;
use vstd::string::StringSliceAdditionalSpecFns;
use crate::outside;

verus! {

/// `pat` occurs in `buf` at offset `pos`.
pub open spec fn starts_at(buf: Seq<u8>, pos: int, pat: Seq<u8>) -> bool {
    &&& 0 <= pos
    &&& pos + pat.len() <= buf.len()
    &&& buf.subrange(pos, pos + pat.len()) == pat
}

/// Big-endian bytes of a value below 2^16.
pub open spec fn be2(v: int) -> Seq<u8> {
    seq![(v / 0x100) as u8, (v % 0x100) as u8]
}

/// Big-endian bytes of a value below 2^32.
pub open spec fn be4(v: int) -> Seq<u8> {
    seq![
        (v / 0x100_0000) as u8,
        ((v / 0x1_0000) % 0x100) as u8,
        ((v / 0x100) % 0x100) as u8,
        (v % 0x100) as u8,
    ]
}

/// The canonical (minimal) encoding of an unsigned integer. A 64-bit value
/// is written as its two big-endian 32-bit halves.
pub open spec fn uint_bytes(v: u64) -> Seq<u8> {
    if v < 0x80 {
        seq![v as u8]
    } else if v < 0x100 {
        seq![0xccu8, v as u8]
    } else if v < 0x1_0000 {
        seq![0xcdu8] + be2(v as int)
    } else if v < 0x1_0000_0000 {
        seq![0xceu8] + be4(v as int)
    } else {
        seq![0xcfu8] + be4((v as int) / 0x1_0000_0000) + be4((v as int) % 0x1_0000_0000)
    }
}

/// The canonical length header of a string of `n` UTF-8 bytes (n < 2^32).
pub open spec fn str_len_bytes(n: int) -> Seq<u8> {
    if n < 32 {
        seq![(0xa0 + n) as u8]
    } else if n < 0x100 {
        seq![0xd9u8, n as u8]
    } else if n < 0x1_0000 {
        seq![0xdau8] + be2(n)
    } else {
        seq![0xdbu8] + be4(n)
    }
}

/// The canonical encoding of a string: length header plus UTF-8 bytes.
pub open spec fn str_bytes(s: Seq<char>) -> Seq<u8> {
    str_len_bytes(vstd::utf8::encode_utf8(s).len() as int) + vstd::utf8::encode_utf8(s)
}

pub open spec fn bool_bytes(b: bool) -> Seq<u8> {
    if b {
        seq![0xc3u8]
    } else {
        seq![0xc2u8]
    }
}

pub open spec fn nil_bytes() -> Seq<u8> {
    seq![0xc0u8]
}

/// A 32-bit float, carried by its IEEE-754 bits.
pub open spec fn f32_bytes(bits: u32) -> Seq<u8> {
    seq![0xcau8] + be4(bits as int)
}

/// The canonical header of a map with `n` key/value pairs (n < 2^32).
pub open spec fn map_header_bytes(n: int) -> Seq<u8> {
    if n < 16 {
        seq![(0x80 + n) as u8]
    } else if n < 0x1_0000 {
        seq![0xdeu8] + be2(n)
    } else {
        seq![0xdfu8] + be4(n)
    }
}

/// The canonical header of an array with `n` elements (n < 2^32).
pub open spec fn array_header_bytes(n: int) -> Seq<u8> {
    if n < 16 {
        seq![(0x90 + n) as u8]
    } else if n < 0x1_0000 {
        seq![0xdcu8] + be2(n)
    } else {
        seq![0xddu8] + be4(n)
    }
}

// ------------------------------------------------------------------
// Writers.
// ------------------------------------------------------------------

/// Appends the canonical encoding of `v`.
pub fn put_uint(out: &mut Vec<u8>, v: u64)
    ensures
        final(out)@ == old(out)@ + uint_bytes(v),
{
    if v < 0x80 {
        out.push(v as u8);
        assert(out@ =~= old(out)@ + uint_bytes(v));
    } else if v < 0x100 {
        out.push(0xcc);
        out.push(v as u8);
        assert(out@ =~= old(out)@ + uint_bytes(v));
    } else if v < 0x1_0000 {
        out.push(0xcd);
        out.push((v / 0x100) as u8);
        out.push((v % 0x100) as u8);
        assert(out@ =~= old(out)@ + uint_bytes(v));
    } else if v < 0x1_0000_0000 {
        out.push(0xce);
        push_be4(out, v);
        assert(out@ =~= old(out)@ + uint_bytes(v));
    } else {
        out.push(0xcf);
        push_be4(out, v / 0x1_0000_0000);
        push_be4(out, v % 0x1_0000_0000);
        assert(out@ =~= old(out)@ + uint_bytes(v));
    }
}

/// Appends the four big-endian bytes of `v` (which is below 2^32).
fn push_be4(out: &mut Vec<u8>, v: u64)
    requires
        v < 0x1_0000_0000,
    ensures
        final(out)@ == old(out)@ + be4(v as int),
{
    out.push((v / 0x100_0000) as u8);
    out.push(((v / 0x1_0000) % 0x100) as u8);
    out.push(((v / 0x100) % 0x100) as u8);
    out.push((v % 0x100) as u8);
    assert(out@ =~= old(out)@ + be4(v as int));
}

/// Appends the canonical encoding of `s`. Fails, appending nothing, exactly
/// when the UTF-8 form does not fit a 32-bit length.
pub fn put_str(out: &mut Vec<u8>, s: &str) -> (ok: bool)
    ensures
        ok == (s.spec_bytes().len() < 0x1_0000_0000),
        ok ==> final(out)@ == old(out)@ + str_bytes(s@),
        !ok ==> final(out)@ == old(out)@,
{
    let bytes = s.as_bytes_vec();
    let n = bytes.len();
    if !((n as u64) < 0x1_0000_0000u64) {
        return false;
    }
    let n64 = n as u64;
    if n < 32 {
        out.push(0xa0 + (n as u8));
    } else if n < 0x100 {
        out.push(0xd9);
        out.push(n as u8);
    } else if n < 0x1_0000 {
        out.push(0xda);
        out.push((n64 / 0x100) as u8);
        out.push((n64 % 0x100) as u8);
    } else {
        out.push(0xdb);
        push_be4(out, n64);
    }
    assert(out@ =~= old(out)@ + str_len_bytes(s.spec_bytes().len() as int));
    let mut i: usize = 0;
    let ghost mid = out@;
    while i < bytes.len()
        invariant
            0 <= i <= bytes@.len(),
            bytes@ == s.spec_bytes(),
            out@ == mid + bytes@.take(i as int),
        decreases bytes@.len() - i,
    {
        out.push(bytes[i]);
        proof {
            assert(bytes@.take(i + 1) =~= bytes@.take(i as int).push(bytes@[i as int]));
            assert(out@ =~= mid + bytes@.take(i + 1));
        }
        i += 1;
    }
    proof {
        assert(bytes@.take(bytes@.len() as int) =~= bytes@);
        assert(out@ =~= old(out)@ + str_bytes(s@));
    }
    true
}

pub fn put_bool(out: &mut Vec<u8>, b: bool)
    ensures
        final(out)@ == old(out)@ + bool_bytes(b),
{
    if b {
        out.push(0xc3);
    } else {
        out.push(0xc2);
    }
    assert(out@ =~= old(out)@ + bool_bytes(b));
}

pub fn put_nil(out: &mut Vec<u8>)
    ensures
        final(out)@ == old(out)@ + nil_bytes(),
{
    out.push(0xc0);
    assert(out@ =~= old(out)@ + nil_bytes());
}

/// Appends a 32-bit float by its bits.
pub fn put_f32_bits(out: &mut Vec<u8>, bits: u32)
    ensures
        final(out)@ == old(out)@ + f32_bytes(bits),
{
    out.push(0xca);
    push_be4(out, bits as u64);
    assert(out@ =~= old(out)@ + f32_bytes(bits));
}

/// Appends a map header for `n` pairs. Fails, appending nothing, exactly
/// when `n` does not fit 32 bits.
pub fn put_map_header(out: &mut Vec<u8>, n: usize) -> (ok: bool)
    ensures
        ok == (n < 0x1_0000_0000),
        ok ==> final(out)@ == old(out)@ + map_header_bytes(n as int),
        !ok ==> final(out)@ == old(out)@,
{
    if !((n as u64) < 0x1_0000_0000u64) {
        return false;
    }
    let n64 = n as u64;
    if n < 16 {
        out.push(0x80 + (n as u8));
    } else if n < 0x1_0000 {
        out.push(0xde);
        out.push((n64 / 0x100) as u8);
        out.push((n64 % 0x100) as u8);
    } else {
        out.push(0xdf);
        push_be4(out, n64);
    }
    assert(out@ =~= old(out)@ + map_header_bytes(n as int));
    true
}

/// Appends an array header for `n` elements. Fails, appending nothing,
/// exactly when `n` does not fit 32 bits.
pub fn put_array_header(out: &mut Vec<u8>, n: usize) -> (ok: bool)
    ensures
        ok == (n < 0x1_0000_0000),
        ok ==> final(out)@ == old(out)@ + array_header_bytes(n as int),
        !ok ==> final(out)@ == old(out)@,
{
    if !((n as u64) < 0x1_0000_0000u64) {
        return false;
    }
    let n64 = n as u64;
    if n < 16 {
        out.push(0x90 + (n as u8));
    } else if n < 0x1_0000 {
        out.push(0xdc);
        out.push((n64 / 0x100) as u8);
        out.push((n64 % 0x100) as u8);
    } else {
        out.push(0xdd);
        push_be4(out, n64);
    }
    assert(out@ =~= old(out)@ + array_header_bytes(n as int));
    true
}

// ------------------------------------------------------------------
// The reader.
// ------------------------------------------------------------------

/// A cursor over the bytes of a received envelope.
pub struct ByteReader<'a> {
    pub buf: &'a Vec<u8>,
    pub pos: usize,
}

impl<'a> ByteReader<'a> {
    pub open spec fn wf(&self) -> bool {
        self.pos <= self.buf@.len()
    }

    pub fn new(buf: &'a Vec<u8>) -> (r: Self)
        ensures
            r.buf == buf,
            r.pos == 0,
            r.wf(),
    {
        ByteReader { buf, pos: 0 }
    }

    /// Every byte has been consumed.
    pub fn done(&self) -> (r: bool)
        ensures
            r == (self.pos == self.buf@.len()),
    {
        self.pos == self.buf.len()
    }

    /// The next byte is the nil marker.
    pub fn peek_is_nil(&self) -> (r: bool)
        requires
            self.wf(),
        ensures
            r == (self.pos < self.buf@.len() && self.buf@[self.pos as int] == 0xc0u8),
    {
        self.pos < self.buf.len() && self.buf[self.pos] == 0xc0
    }

    /// Consumes a canonical unsigned integer.
    #[verifier::rlimit(80)]
    pub fn take_uint(&mut self) -> (r: Option<u64>)
        requires
            old(self).wf(),
        ensures
            final(self).buf == old(self).buf,
            final(self).wf(),
            r matches Some(v) ==> starts_at(old(self).buf@, old(self).pos as int, uint_bytes(v))
                && final(self).pos == old(self).pos + uint_bytes(v).len(),
            forall|u: u64|
                starts_at(old(self).buf@, old(self).pos as int, uint_bytes(u)) ==> r == Some(u),
    {
        let len = self.buf.len();
        if self.pos >= len {
            proof {
                assert forall|u: u64|
                    !starts_at(self.buf@, self.pos as int, uint_bytes(u)) by {
                    assert(uint_bytes(u).len() >= 1);
                }
            }
            return None;
        }
        let b0 = self.buf[self.pos];
        if b0 < 0x80 {
            self.pos = self.pos + 1;
            proof {
                let v = b0 as u64;
                assert(self.buf@.subrange(old(self).pos as int, old(self).pos + 1) =~= seq![b0]);
                assert(starts_at(self.buf@, old(self).pos as int, uint_bytes(v)));
                assert forall|u: u64|
                    starts_at(self.buf@, old(self).pos as int, uint_bytes(u)) implies u == v by {
                    assert(uint_bytes(u)[0] == self.buf@[old(self).pos as int]);
                }
            }
            Some(b0 as u64)
        } else if b0 == 0xcc {
            if len - self.pos < 2 {
                proof {
                    assert forall|u: u64|
                        !starts_at(self.buf@, self.pos as int, uint_bytes(u)) by {
                        assert(uint_bytes(u)[0] == self.buf@[self.pos as int] ==> u >= 0x80 && u
                            < 0x100);
                    }
                }
                return None;
            }
            let b1 = self.buf[self.pos + 1];
            if b1 < 0x80 {
                proof {
                    assert forall|u: u64|
                        !starts_at(self.buf@, self.pos as int, uint_bytes(u)) by {
                        if starts_at(self.buf@, self.pos as int, uint_bytes(u)) {
                            assert(uint_bytes(u)[0] == b0);
                            assert(u >= 0x80 && u < 0x100);
                            assert(uint_bytes(u)[1] == b1);
                        }
                    }
                }
                return None;
            }
            self.pos = self.pos + 2;
            proof {
                let v = b1 as u64;
                assert(self.buf@.subrange(old(self).pos as int, old(self).pos + 2) =~= seq![
                    0xccu8,
                    b1,
                ]);
                assert(starts_at(self.buf@, old(self).pos as int, uint_bytes(v)));
                assert forall|u: u64|
                    starts_at(self.buf@, old(self).pos as int, uint_bytes(u)) implies u == v by {
                    assert(uint_bytes(u)[0] == 0xccu8);
                    assert(u >= 0x80 && u < 0x100);
                    assert(uint_bytes(u)[1] == b1);
                }
            }
            Some(b1 as u64)
        } else if b0 == 0xcd {
            if len - self.pos < 3 {
                proof {
                    assert forall|u: u64|
                        !starts_at(self.buf@, self.pos as int, uint_bytes(u)) by {
                        assert(uint_bytes(u)[0] == self.buf@[self.pos as int] ==> u >= 0x100 && u
                            < 0x1_0000);
                    }
                }
                return None;
            }
            let b1 = self.buf[self.pos + 1];
            let b2 = self.buf[self.pos + 2];
            let v = (b1 as u64) * 0x100 + (b2 as u64);
            if v < 0x100 {
                proof {
                    assert forall|u: u64|
                        !starts_at(self.buf@, self.pos as int, uint_bytes(u)) by {
                        if starts_at(self.buf@, self.pos as int, uint_bytes(u)) {
                            assert(uint_bytes(u)[0] == self.buf@[self.pos as int]);
                            assert(u >= 0x100 && u < 0x1_0000);
                            assert(uint_bytes(u)[1] == b1 && uint_bytes(u)[2] == b2);
                            assert(u as int == (b1 as int) * 0x100 + (b2 as int));
                        }
                    }
                }
                return None;
            }
            self.pos = self.pos + 3;
            proof {
                assert(self.buf@.subrange(old(self).pos as int, old(self).pos + 3) =~= seq![
                    0xcdu8,
                    b1,
                    b2,
                ]);
                assert(be2(v as int) =~= seq![b1, b2]);
                assert(uint_bytes(v) =~= seq![0xcdu8, b1, b2]);
                assert(starts_at(self.buf@, old(self).pos as int, uint_bytes(v)));
                assert forall|u: u64|
                    starts_at(self.buf@, old(self).pos as int, uint_bytes(u)) implies u == v by {
                    assert(uint_bytes(u)[0] == self.buf@[old(self).pos as int]);
                    assert(uint_bytes(u)[0] == 0xcdu8);
                    assert(u >= 0x100 && u < 0x1_0000);
                    assert(uint_bytes(u)[1] == b1 && uint_bytes(u)[2] == b2);
                    assert(u as int == (b1 as int) * 0x100 + (b2 as int));
                }
            }
            Some(v)
        } else if b0 == 0xce {
            if len - self.pos < 5 {
                proof {
                    assert forall|u: u64|
                        !starts_at(self.buf@, self.pos as int, uint_bytes(u)) by {
                        assert(uint_bytes(u)[0] == self.buf@[self.pos as int] ==> u >= 0x1_0000
                            && u < 0x1_0000_0000);
                    }
                }
                return None;
            }
            let b1 = self.buf[self.pos + 1];
            let b2 = self.buf[self.pos + 2];
            let b3 = self.buf[self.pos + 3];
            let b4 = self.buf[self.pos + 4];
            let v = (b1 as u64) * 0x100_0000 + (b2 as u64) * 0x1_0000 + (b3 as u64) * 0x100 + (
            b4 as u64);
            if v < 0x1_0000 {
                proof {
                    assert forall|u: u64|
                        !starts_at(self.buf@, self.pos as int, uint_bytes(u)) by {
                        if starts_at(self.buf@, self.pos as int, uint_bytes(u)) {
                            assert(uint_bytes(u)[0] == self.buf@[self.pos as int]);
                            assert(u >= 0x1_0000 && u < 0x1_0000_0000);
                            lemma_be4_digits(u as int);
                            assert(uint_bytes(u)[1] == b1 && uint_bytes(u)[2] == b2
                                && uint_bytes(u)[3] == b3 && uint_bytes(u)[4] == b4);
                            lemma_be4_value(u as int, b1, b2, b3, b4);
                        }
                    }
                }
                return None;
            }
            self.pos = self.pos + 5;
            proof {
                assert(self.buf@.subrange(old(self).pos as int, old(self).pos + 5) =~= seq![
                    0xceu8,
                    b1,
                    b2,
                    b3,
                    b4,
                ]);
                lemma_be4_digits(v as int);
                assert(be4(v as int) =~= seq![b1, b2, b3, b4]) by {
                    lemma_be4_compose(b1, b2, b3, b4);
                }
                assert(uint_bytes(v) =~= seq![0xceu8, b1, b2, b3, b4]);
                assert(starts_at(self.buf@, old(self).pos as int, uint_bytes(v)));
                assert forall|u: u64|
                    starts_at(self.buf@, old(self).pos as int, uint_bytes(u)) implies u == v by {
                    assert(uint_bytes(u)[0] == self.buf@[old(self).pos as int]);
                    assert(uint_bytes(u)[0] == 0xceu8);
                    assert(u >= 0x1_0000 && u < 0x1_0000_0000);
                    lemma_be4_digits(u as int);
                    assert(uint_bytes(u)[1] == b1 && uint_bytes(u)[2] == b2 && uint_bytes(u)[3]
                        == b3 && uint_bytes(u)[4] == b4);
                    lemma_be4_value(u as int, b1, b2, b3, b4);
                }
            }
            Some(v)
        } else if b0 == 0xcf {
            if len - self.pos < 9 {
                proof {
                    assert forall|u: u64|
                        !starts_at(self.buf@, self.pos as int, uint_bytes(u)) by {
                        assert(uint_bytes(u)[0] == self.buf@[self.pos as int] ==> u
                            >= 0x1_0000_0000);
                    }
                }
                return None;
            }
            let b1 = self.buf[self.pos + 1];
            let b2 = self.buf[self.pos + 2];
            let b3 = self.buf[self.pos + 3];
            let b4 = self.buf[self.pos + 4];
            let b5 = self.buf[self.pos + 5];
            let b6 = self.buf[self.pos + 6];
            let b7 = self.buf[self.pos + 7];
            let b8 = self.buf[self.pos + 8];
            let hi = (b1 as u64) * 0x100_0000 + (b2 as u64) * 0x1_0000 + (b3 as u64) * 0x100 + (
            b4 as u64);
            let lo = (b5 as u64) * 0x100_0000 + (b6 as u64) * 0x1_0000 + (b7 as u64) * 0x100 + (
            b8 as u64);
            proof {
                lemma_be4_compose(b1, b2, b3, b4);
                lemma_be4_compose(b5, b6, b7, b8);
                lemma_split64(hi as int, lo as int);
            }
            let v = hi * 0x1_0000_0000 + lo;
            if v < 0x1_0000_0000 {
                proof {
                    assert forall|u: u64|
                        !starts_at(self.buf@, self.pos as int, uint_bytes(u)) by {
                        if starts_at(self.buf@, self.pos as int, uint_bytes(u)) {
                            assert(uint_bytes(u)[0] == self.buf@[self.pos as int]);
                            assert(u >= 0x1_0000_0000);
                            let uh = (u as int) / 0x1_0000_0000;
                            let ul = (u as int) % 0x1_0000_0000;
                            lemma_be4_digits(uh);
                            lemma_be4_digits(ul);
                            assert(uint_bytes(u)[1] == b1 && uint_bytes(u)[2] == b2
                                && uint_bytes(u)[3] == b3 && uint_bytes(u)[4] == b4
                                && uint_bytes(u)[5] == b5 && uint_bytes(u)[6] == b6
                                && uint_bytes(u)[7] == b7 && uint_bytes(u)[8] == b8);
                            lemma_be4_value(uh, b1, b2, b3, b4);
                            lemma_be4_value(ul, b5, b6, b7, b8);
                            assert(u as int == uh * 0x1_0000_0000 + ul);
                        }
                    }
                }
                return None;
            }
            self.pos = self.pos + 9;
            proof {
                assert(self.buf@.subrange(old(self).pos as int, old(self).pos + 9) =~= seq![
                    0xcfu8,
                    b1,
                    b2,
                    b3,
                    b4,
                    b5,
                    b6,
                    b7,
                    b8,
                ]);
                assert((v as int) / 0x1_0000_0000 == hi as int && (v as int) % 0x1_0000_0000
                    == lo as int);
                assert(be4(hi as int) =~= seq![b1, b2, b3, b4]);
                assert(be4(lo as int) =~= seq![b5, b6, b7, b8]);
                assert(uint_bytes(v) =~= seq![0xcfu8, b1, b2, b3, b4, b5, b6, b7, b8]);
                assert(starts_at(self.buf@, old(self).pos as int, uint_bytes(v)));
                assert forall|u: u64|
                    starts_at(self.buf@, old(self).pos as int, uint_bytes(u)) implies u == v by {
                    assert(uint_bytes(u)[0] == self.buf@[old(self).pos as int]);
                    assert(uint_bytes(u)[0] == 0xcfu8);
                    assert(u >= 0x1_0000_0000);
                    let uh = (u as int) / 0x1_0000_0000;
                    let ul = (u as int) % 0x1_0000_0000;
                    lemma_be4_digits(uh);
                    lemma_be4_digits(ul);
                    assert(uint_bytes(u)[1] == b1 && uint_bytes(u)[2] == b2 && uint_bytes(u)[3]
                        == b3 && uint_bytes(u)[4] == b4 && uint_bytes(u)[5] == b5
                        && uint_bytes(u)[6] == b6 && uint_bytes(u)[7] == b7 && uint_bytes(u)[8]
                        == b8);
                    lemma_be4_value(uh, b1, b2, b3, b4);
                    lemma_be4_value(ul, b5, b6, b7, b8);
                    assert(u as int == uh * 0x1_0000_0000 + ul);
                }
            }
            Some(v)
        } else {
            proof {
                assert forall|u: u64| !starts_at(self.buf@, self.pos as int, uint_bytes(u)) by {
                    assert(uint_bytes(u)[0] == self.buf@[self.pos as int] ==> false);
                }
            }
            None
        }
    }
}

impl<'a> ByteReader<'a> {
    /// Consumes a canonical string length header.
    #[verifier::rlimit(80)]
    pub fn take_str_len(&mut self) -> (r: Option<u64>)
        requires
            old(self).wf(),
        ensures
            final(self).buf == old(self).buf,
            final(self).wf(),
            r matches Some(n) ==> n < 0x1_0000_0000 && starts_at(
                old(self).buf@,
                old(self).pos as int,
                str_len_bytes(n as int),
            ) && final(self).pos == old(self).pos + str_len_bytes(n as int).len(),
            forall|m: int|
                0 <= m < 0x1_0000_0000 && starts_at(
                    old(self).buf@,
                    old(self).pos as int,
                    str_len_bytes(m),
                ) ==> r == Some(m as u64),
    {
        let len = self.buf.len();
        if self.pos >= len {
            proof {
                assert forall|m: int|
                    0 <= m < 0x1_0000_0000 implies !starts_at(
                    self.buf@,
                    self.pos as int,
                    str_len_bytes(m),
                ) by {
                    assert(str_len_bytes(m).len() >= 1);
                }
            }
            return None;
        }
        let b0 = self.buf[self.pos];
        if 0xa0 <= b0 && b0 <= 0xbf {
            self.pos = self.pos + 1;
            let n = (b0 - 0xa0) as u64;
            proof {
                assert(self.buf@.subrange(old(self).pos as int, old(self).pos + 1) =~= seq![b0]);
                assert(str_len_bytes(n as int) =~= seq![b0]);
                assert forall|m: int|
                    0 <= m < 0x1_0000_0000 && starts_at(
                        self.buf@,
                        old(self).pos as int,
                        str_len_bytes(m),
                    ) implies m == n as int by {
                    assert(str_len_bytes(m)[0] == self.buf@[old(self).pos as int]);
                }
            }
            Some(n)
        } else if b0 == 0xd9 {
            if len - self.pos < 2 {
                proof {
                    assert forall|m: int|
                        0 <= m < 0x1_0000_0000 implies !starts_at(
                        self.buf@,
                        self.pos as int,
                        str_len_bytes(m),
                    ) by {
                        assert(str_len_bytes(m)[0] == self.buf@[self.pos as int] ==> 32 <= m
                            < 0x100);
                    }
                }
                return None;
            }
            let b1 = self.buf[self.pos + 1];
            if b1 < 32 {
                proof {
                    assert forall|m: int|
                        0 <= m < 0x1_0000_0000 implies !starts_at(
                        self.buf@,
                        self.pos as int,
                        str_len_bytes(m),
                    ) by {
                        if starts_at(self.buf@, self.pos as int, str_len_bytes(m)) {
                            assert(str_len_bytes(m)[0] == self.buf@[self.pos as int]);
                            assert(32 <= m < 0x100);
                            assert(str_len_bytes(m)[1] == b1);
                        }
                    }
                }
                return None;
            }
            self.pos = self.pos + 2;
            proof {
                assert(self.buf@.subrange(old(self).pos as int, old(self).pos + 2) =~= seq![
                    0xd9u8,
                    b1,
                ]);
                assert(str_len_bytes(b1 as int) =~= seq![0xd9u8, b1]);
                assert forall|m: int|
                    0 <= m < 0x1_0000_0000 && starts_at(
                        self.buf@,
                        old(self).pos as int,
                        str_len_bytes(m),
                    ) implies m == b1 as int by {
                    assert(str_len_bytes(m)[0] == self.buf@[old(self).pos as int]);
                    assert(32 <= m < 0x100);
                    assert(str_len_bytes(m)[1] == b1);
                }
            }
            Some(b1 as u64)
        } else if b0 == 0xda {
            if len - self.pos < 3 {
                proof {
                    assert forall|m: int|
                        0 <= m < 0x1_0000_0000 implies !starts_at(
                        self.buf@,
                        self.pos as int,
                        str_len_bytes(m),
                    ) by {
                        assert(str_len_bytes(m)[0] == self.buf@[self.pos as int] ==> 0x100 <= m
                            < 0x1_0000);
                    }
                }
                return None;
            }
            let b1 = self.buf[self.pos + 1];
            let b2 = self.buf[self.pos + 2];
            let n = (b1 as u64) * 0x100 + (b2 as u64);
            if n < 0x100 {
                proof {
                    assert forall|m: int|
                        0 <= m < 0x1_0000_0000 implies !starts_at(
                        self.buf@,
                        self.pos as int,
                        str_len_bytes(m),
                    ) by {
                        if starts_at(self.buf@, self.pos as int, str_len_bytes(m)) {
                            assert(str_len_bytes(m)[0] == self.buf@[self.pos as int]);
                            assert(0x100 <= m < 0x1_0000);
                            assert(str_len_bytes(m)[1] == b1 && str_len_bytes(m)[2] == b2);
                            assert(m == (b1 as int) * 0x100 + (b2 as int));
                        }
                    }
                }
                return None;
            }
            self.pos = self.pos + 3;
            proof {
                assert(self.buf@.subrange(old(self).pos as int, old(self).pos + 3) =~= seq![
                    0xdau8,
                    b1,
                    b2,
                ]);
                assert(be2(n as int) =~= seq![b1, b2]);
                assert(str_len_bytes(n as int) =~= seq![0xdau8, b1, b2]);
                assert forall|m: int|
                    0 <= m < 0x1_0000_0000 && starts_at(
                        self.buf@,
                        old(self).pos as int,
                        str_len_bytes(m),
                    ) implies m == n as int by {
                    assert(str_len_bytes(m)[0] == self.buf@[old(self).pos as int]);
                    assert(0x100 <= m < 0x1_0000);
                    assert(str_len_bytes(m)[1] == b1 && str_len_bytes(m)[2] == b2);
                    assert(m == (b1 as int) * 0x100 + (b2 as int));
                }
            }
            Some(n)
        } else if b0 == 0xdb {
            if len - self.pos < 5 {
                proof {
                    assert forall|m: int|
                        0 <= m < 0x1_0000_0000 implies !starts_at(
                        self.buf@,
                        self.pos as int,
                        str_len_bytes(m),
                    ) by {
                        assert(str_len_bytes(m)[0] == self.buf@[self.pos as int] ==> 0x1_0000
                            <= m < 0x1_0000_0000);
                    }
                }
                return None;
            }
            let b1 = self.buf[self.pos + 1];
            let b2 = self.buf[self.pos + 2];
            let b3 = self.buf[self.pos + 3];
            let b4 = self.buf[self.pos + 4];
            let n = (b1 as u64) * 0x100_0000 + (b2 as u64) * 0x1_0000 + (b3 as u64) * 0x100 + (
            b4 as u64);
            if n < 0x1_0000 {
                proof {
                    assert forall|m: int|
                        0 <= m < 0x1_0000_0000 implies !starts_at(
                        self.buf@,
                        self.pos as int,
                        str_len_bytes(m),
                    ) by {
                        if starts_at(self.buf@, self.pos as int, str_len_bytes(m)) {
                            assert(str_len_bytes(m)[0] == self.buf@[self.pos as int]);
                            assert(0x1_0000 <= m < 0x1_0000_0000);
                            lemma_be4_digits(m);
                            assert(str_len_bytes(m)[1] == b1 && str_len_bytes(m)[2] == b2
                                && str_len_bytes(m)[3] == b3 && str_len_bytes(m)[4] == b4);
                            lemma_be4_value(m, b1, b2, b3, b4);
                        }
                    }
                }
                return None;
            }
            self.pos = self.pos + 5;
            proof {
                assert(self.buf@.subrange(old(self).pos as int, old(self).pos + 5) =~= seq![
                    0xdbu8,
                    b1,
                    b2,
                    b3,
                    b4,
                ]);
                lemma_be4_digits(n as int);
                assert(be4(n as int) =~= seq![b1, b2, b3, b4]) by {
                    lemma_be4_compose(b1, b2, b3, b4);
                }
                assert(str_len_bytes(n as int) =~= seq![0xdbu8, b1, b2, b3, b4]);
                assert forall|m: int|
                    0 <= m < 0x1_0000_0000 && starts_at(
                        self.buf@,
                        old(self).pos as int,
                        str_len_bytes(m),
                    ) implies m == n as int by {
                    assert(str_len_bytes(m)[0] == self.buf@[old(self).pos as int]);
                    assert(0x1_0000 <= m < 0x1_0000_0000);
                    lemma_be4_digits(m);
                    assert(str_len_bytes(m)[1] == b1 && str_len_bytes(m)[2] == b2
                        && str_len_bytes(m)[3] == b3 && str_len_bytes(m)[4] == b4);
                    lemma_be4_value(m, b1, b2, b3, b4);
                }
            }
            Some(n)
        } else {
            proof {
                assert forall|m: int|
                    0 <= m < 0x1_0000_0000 implies !starts_at(
                    self.buf@,
                    self.pos as int,
                    str_len_bytes(m),
                ) by {
                    assert(str_len_bytes(m)[0] == self.buf@[self.pos as int] ==> false);
                }
            }
            None
        }
    }

    /// Consumes a canonical string.
    pub fn take_str(&mut self) -> (r: Option<String>)
        requires
            old(self).wf(),
        ensures
            final(self).buf == old(self).buf,
            final(self).wf(),
            r matches Some(s) ==> vstd::utf8::encode_utf8(s@).len() < 0x1_0000_0000 && starts_at(
                old(self).buf@,
                old(self).pos as int,
                str_bytes(s@),
            ) && final(self).pos == old(self).pos + str_bytes(s@).len(),
            forall|t: Seq<char>|
                vstd::utf8::encode_utf8(t).len() < 0x1_0000_0000 && starts_at(
                    old(self).buf@,
                    old(self).pos as int,
                    str_bytes(t),
                ) ==> r is Some && r.unwrap()@ == t,
    {
        let ghost obuf = self.buf@;
        let ghost opos = self.pos as int;
        proof {
            assert forall|t: Seq<char>|
                vstd::utf8::encode_utf8(t).len() < 0x1_0000_0000 && starts_at(
                    obuf,
                    opos,
                    str_bytes(t),
                ) implies starts_at(
                obuf,
                opos,
                str_len_bytes(vstd::utf8::encode_utf8(t).len() as int),
            ) by {
                let hdr = str_len_bytes(vstd::utf8::encode_utf8(t).len() as int);
                assert(obuf.subrange(opos, opos + hdr.len() as int) =~= obuf.subrange(
                    opos,
                    opos + str_bytes(t).len() as int,
                ).subrange(0, hdr.len() as int));
                assert(str_bytes(t).subrange(0, hdr.len() as int) =~= hdr);
            }
        }
        let n = match self.take_str_len() {
            Some(n) => n,
            None => {
                return None;
            },
        };
        let n_usize = n as usize;
        if n_usize > self.buf.len() - self.pos {
            proof {
                assert forall|t: Seq<char>|
                    vstd::utf8::encode_utf8(t).len() < 0x1_0000_0000 && starts_at(
                        obuf,
                        opos,
                        str_bytes(t),
                    ) implies false by {
                    let nt = vstd::utf8::encode_utf8(t).len() as int;
                    assert(starts_at(obuf, opos, str_len_bytes(nt)));
                    assert(nt == n as int);
                }
            }
            return None;
        }
        let mut bytes: Vec<u8> = Vec::new();
        let start = self.pos;
        let mut i: usize = 0;
        while i < n_usize
            invariant
                0 <= i <= n_usize,
                start + n_usize <= self.buf@.len(),
                self.buf@.len() <= usize::MAX,
                self.buf@ == obuf,
                self.pos == start,
                bytes@ == obuf.subrange(start as int, start + i),
            decreases n_usize - i,
        {
            bytes.push(self.buf[start + i]);
            proof {
                assert(bytes@ =~= obuf.subrange(start as int, start + i + 1));
            }
            i += 1;
        }
        self.pos = start + n_usize;
        let ghost consumed_hdr = str_len_bytes(n as int);
        match outside::string_from_utf8(bytes) {
            Some(s) => {
                proof {
                    vstd::utf8::decode_utf8_encode_utf8(obuf.subrange(
                        start as int,
                        start + n_usize,
                    ));
                    assert(vstd::utf8::encode_utf8(s@) == obuf.subrange(
                        start as int,
                        start + n_usize,
                    ));
                    assert(obuf.subrange(opos, opos + str_bytes(s@).len() as int) =~= consumed_hdr
                        + obuf.subrange(start as int, start + n_usize));
                    assert(starts_at(obuf, opos, str_bytes(s@)));
                    assert forall|t: Seq<char>|
                        vstd::utf8::encode_utf8(t).len() < 0x1_0000_0000 && starts_at(
                            obuf,
                            opos,
                            str_bytes(t),
                        ) implies s@ == t by {
                        let nt = vstd::utf8::encode_utf8(t).len() as int;
                        assert(starts_at(obuf, opos, str_len_bytes(nt)));
                        assert(nt == n as int);
                        assert(obuf.subrange(start as int, start + n_usize)
                            =~= vstd::utf8::encode_utf8(t)) by {
                            assert(obuf.subrange(opos, opos + str_bytes(t).len() as int).subrange(
                                consumed_hdr.len() as int,
                                str_bytes(t).len() as int,
                            ) =~= vstd::utf8::encode_utf8(t));
                            assert(obuf.subrange(opos, opos + str_bytes(t).len() as int).subrange(
                                consumed_hdr.len() as int,
                                str_bytes(t).len() as int,
                            ) =~= obuf.subrange(start as int, start + n_usize));
                        }
                        vstd::utf8::encode_utf8_decode_utf8(t);
                    }
                }
                Some(s)
            },
            None => {
                proof {
                    assert forall|t: Seq<char>|
                        vstd::utf8::encode_utf8(t).len() < 0x1_0000_0000 && starts_at(
                            obuf,
                            opos,
                            str_bytes(t),
                        ) implies false by {
                        let nt = vstd::utf8::encode_utf8(t).len() as int;
                        assert(starts_at(obuf, opos, str_len_bytes(nt)));
                        assert(nt == n as int);
                        assert(obuf.subrange(start as int, start + n_usize)
                            =~= vstd::utf8::encode_utf8(t)) by {
                            assert(obuf.subrange(opos, opos + str_bytes(t).len() as int).subrange(
                                consumed_hdr.len() as int,
                                str_bytes(t).len() as int,
                            ) =~= vstd::utf8::encode_utf8(t));
                            assert(obuf.subrange(opos, opos + str_bytes(t).len() as int).subrange(
                                consumed_hdr.len() as int,
                                str_bytes(t).len() as int,
                            ) =~= obuf.subrange(start as int, start + n_usize));
                        }
                        vstd::utf8::encode_utf8_valid_utf8(t);
                    }
                }
                None
            },
        }
    }

    /// Consumes a boolean.
    pub fn take_bool(&mut self) -> (r: Option<bool>)
        requires
            old(self).wf(),
        ensures
            final(self).buf == old(self).buf,
            final(self).wf(),
            r matches Some(b) ==> starts_at(old(self).buf@, old(self).pos as int, bool_bytes(b))
                && final(self).pos == old(self).pos + 1,
            forall|b: bool|
                starts_at(old(self).buf@, old(self).pos as int, bool_bytes(b)) ==> r == Some(b),
    {
        if self.pos >= self.buf.len() {
            proof {
                assert forall|b: bool|
                    !starts_at(self.buf@, self.pos as int, bool_bytes(b)) by {
                    assert(bool_bytes(b).len() == 1);
                }
            }
            return None;
        }
        let b0 = self.buf[self.pos];
        proof {
            assert(self.buf@.subrange(self.pos as int, self.pos + 1) =~= seq![b0]);
            assert forall|b: bool|
                starts_at(self.buf@, self.pos as int, bool_bytes(b)) implies bool_bytes(b)[0]
                == b0 by {
                assert(self.buf@.subrange(self.pos as int, self.pos + 1)[0] == b0);
            }
        }
        if b0 == 0xc3 {
            self.pos = self.pos + 1;
            Some(true)
        } else if b0 == 0xc2 {
            self.pos = self.pos + 1;
            Some(false)
        } else {
            None
        }
    }

    /// Consumes a nil marker if one is next.
    pub fn take_nil(&mut self) -> (r: bool)
        requires
            old(self).wf(),
        ensures
            final(self).buf == old(self).buf,
            final(self).wf(),
            r ==> starts_at(old(self).buf@, old(self).pos as int, nil_bytes()) && final(self).pos
                == old(self).pos + 1,
            !r ==> *final(self) == *old(self) && !starts_at(
                old(self).buf@,
                old(self).pos as int,
                nil_bytes(),
            ),
    {
        if self.pos < self.buf.len() && self.buf[self.pos] == 0xc0 {
            proof {
                assert(self.buf@.subrange(self.pos as int, self.pos + 1) =~= seq![0xc0u8]);
            }
            self.pos = self.pos + 1;
            true
        } else {
            proof {
                if starts_at(self.buf@, self.pos as int, nil_bytes()) {
                    assert(self.buf@.subrange(self.pos as int, self.pos + 1)[0]
                        == self.buf@[self.pos as int]);
                    assert(self.buf@[self.pos as int] == 0xc0u8);
                }
            }
            false
        }
    }

    /// Consumes a 32-bit float, returned by its bits.
    pub fn take_f32_bits(&mut self) -> (r: Option<u32>)
        requires
            old(self).wf(),
        ensures
            final(self).buf == old(self).buf,
            final(self).wf(),
            r matches Some(bits) ==> starts_at(
                old(self).buf@,
                old(self).pos as int,
                f32_bytes(bits),
            ) && final(self).pos == old(self).pos + 5,
            forall|bits: u32|
                starts_at(old(self).buf@, old(self).pos as int, f32_bytes(bits)) ==> r == Some(
                    bits,
                ),
    {
        let len = self.buf.len();
        if self.pos >= len || self.buf[self.pos] != 0xca || len - self.pos < 5 {
            proof {
                assert forall|bits: u32|
                    !starts_at(self.buf@, self.pos as int, f32_bytes(bits)) by {
                    if starts_at(self.buf@, self.pos as int, f32_bytes(bits)) {
                        assert(f32_bytes(bits)[0] == self.buf@[self.pos as int]);
                        assert(f32_bytes(bits).len() == 5);
                    }
                }
            }
            return None;
        }
        let b1 = self.buf[self.pos + 1];
        let b2 = self.buf[self.pos + 2];
        let b3 = self.buf[self.pos + 3];
        let b4 = self.buf[self.pos + 4];
        let v = (b1 as u64) * 0x100_0000 + (b2 as u64) * 0x1_0000 + (b3 as u64) * 0x100 + (
        b4 as u64);
        proof {
            lemma_be4_compose(b1, b2, b3, b4);
        }
        let bits = v as u32;
        self.pos = self.pos + 5;
        proof {
            assert(self.buf@.subrange(old(self).pos as int, old(self).pos + 5) =~= seq![
                0xcau8,
                b1,
                b2,
                b3,
                b4,
            ]);
            assert(be4(bits as int) =~= seq![b1, b2, b3, b4]);
            assert(f32_bytes(bits) =~= seq![0xcau8, b1, b2, b3, b4]);
            assert(starts_at(self.buf@, old(self).pos as int, f32_bytes(bits)));
            assert forall|u: u32|
                starts_at(self.buf@, old(self).pos as int, f32_bytes(u)) implies u == bits by {
                lemma_be4_digits(u as int);
                assert(f32_bytes(u)[1] == b1 && f32_bytes(u)[2] == b2 && f32_bytes(u)[3] == b3
                    && f32_bytes(u)[4] == b4);
                lemma_be4_value(u as int, b1, b2, b3, b4);
            }
        }
        Some(bits)
    }

    /// Consumes a canonical map header.
    #[verifier::rlimit(80)]
    pub fn take_map_header(&mut self) -> (r: Option<u64>)
        requires
            old(self).wf(),
        ensures
            final(self).buf == old(self).buf,
            final(self).wf(),
            r matches Some(n) ==> n < 0x1_0000_0000 && starts_at(
                old(self).buf@,
                old(self).pos as int,
                map_header_bytes(n as int),
            ) && final(self).pos == old(self).pos + map_header_bytes(n as int).len(),
            forall|m: int|
                0 <= m < 0x1_0000_0000 && starts_at(
                    old(self).buf@,
                    old(self).pos as int,
                    map_header_bytes(m),
                ) ==> r == Some(m as u64),
    {
        let len = self.buf.len();
        if self.pos >= len {
            proof {
                assert forall|m: int|
                    0 <= m < 0x1_0000_0000 implies !starts_at(
                    self.buf@,
                    self.pos as int,
                    map_header_bytes(m),
                ) by {
                    assert(map_header_bytes(m).len() >= 1);
                }
            }
            return None;
        }
        let b0 = self.buf[self.pos];
        if 0x80 <= b0 && b0 <= 0x8f {
            self.pos = self.pos + 1;
            let n = (b0 - 0x80) as u64;
            proof {
                assert(self.buf@.subrange(old(self).pos as int, old(self).pos + 1) =~= seq![b0]);
                assert(map_header_bytes(n as int) =~= seq![b0]);
                assert forall|m: int|
                    0 <= m < 0x1_0000_0000 && starts_at(
                        self.buf@,
                        old(self).pos as int,
                        map_header_bytes(m),
                    ) implies m == n as int by {
                    assert(map_header_bytes(m)[0] == self.buf@[old(self).pos as int]);
                }
            }
            Some(n)
        } else if b0 == 0xde {
            if len - self.pos < 3 {
                proof {
                    assert forall|m: int|
                        0 <= m < 0x1_0000_0000 implies !starts_at(
                        self.buf@,
                        self.pos as int,
                        map_header_bytes(m),
                    ) by {
                        assert(map_header_bytes(m)[0] == self.buf@[self.pos as int] ==> 16 <= m
                            < 0x1_0000);
                    }
                }
                return None;
            }
            let b1 = self.buf[self.pos + 1];
            let b2 = self.buf[self.pos + 2];
            let n = (b1 as u64) * 0x100 + (b2 as u64);
            if n < 16 {
                proof {
                    assert forall|m: int|
                        0 <= m < 0x1_0000_0000 implies !starts_at(
                        self.buf@,
                        self.pos as int,
                        map_header_bytes(m),
                    ) by {
                        if starts_at(self.buf@, self.pos as int, map_header_bytes(m)) {
                            assert(map_header_bytes(m)[0] == self.buf@[self.pos as int]);
                            assert(16 <= m < 0x1_0000);
                            assert(map_header_bytes(m)[1] == b1 && map_header_bytes(m)[2] == b2);
                            assert(m == (b1 as int) * 0x100 + (b2 as int));
                        }
                    }
                }
                return None;
            }
            self.pos = self.pos + 3;
            proof {
                assert(self.buf@.subrange(old(self).pos as int, old(self).pos + 3) =~= seq![
                    0xdeu8,
                    b1,
                    b2,
                ]);
                assert(be2(n as int) =~= seq![b1, b2]);
                assert(map_header_bytes(n as int) =~= seq![0xdeu8, b1, b2]);
                assert forall|m: int|
                    0 <= m < 0x1_0000_0000 && starts_at(
                        self.buf@,
                        old(self).pos as int,
                        map_header_bytes(m),
                    ) implies m == n as int by {
                    assert(map_header_bytes(m)[0] == self.buf@[old(self).pos as int]);
                    assert(16 <= m < 0x1_0000);
                    assert(map_header_bytes(m)[1] == b1 && map_header_bytes(m)[2] == b2);
                    assert(m == (b1 as int) * 0x100 + (b2 as int));
                }
            }
            Some(n)
        } else if b0 == 0xdf {
            if len - self.pos < 5 {
                proof {
                    assert forall|m: int|
                        0 <= m < 0x1_0000_0000 implies !starts_at(
                        self.buf@,
                        self.pos as int,
                        map_header_bytes(m),
                    ) by {
                        assert(map_header_bytes(m)[0] == self.buf@[self.pos as int] ==> 0x1_0000
                            <= m < 0x1_0000_0000);
                    }
                }
                return None;
            }
            let b1 = self.buf[self.pos + 1];
            let b2 = self.buf[self.pos + 2];
            let b3 = self.buf[self.pos + 3];
            let b4 = self.buf[self.pos + 4];
            let n = (b1 as u64) * 0x100_0000 + (b2 as u64) * 0x1_0000 + (b3 as u64) * 0x100 + (
            b4 as u64);
            if n < 0x1_0000 {
                proof {
                    assert forall|m: int|
                        0 <= m < 0x1_0000_0000 implies !starts_at(
                        self.buf@,
                        self.pos as int,
                        map_header_bytes(m),
                    ) by {
                        if starts_at(self.buf@, self.pos as int, map_header_bytes(m)) {
                            assert(map_header_bytes(m)[0] == self.buf@[self.pos as int]);
                            assert(0x1_0000 <= m < 0x1_0000_0000);
                            lemma_be4_digits(m);
                            assert(map_header_bytes(m)[1] == b1 && map_header_bytes(m)[2] == b2
                                && map_header_bytes(m)[3] == b3 && map_header_bytes(m)[4] == b4);
                            lemma_be4_value(m, b1, b2, b3, b4);
                        }
                    }
                }
                return None;
            }
            self.pos = self.pos + 5;
            proof {
                assert(self.buf@.subrange(old(self).pos as int, old(self).pos + 5) =~= seq![
                    0xdfu8,
                    b1,
                    b2,
                    b3,
                    b4,
                ]);
                lemma_be4_digits(n as int);
                assert(be4(n as int) =~= seq![b1, b2, b3, b4]) by {
                    lemma_be4_compose(b1, b2, b3, b4);
                }
                assert(map_header_bytes(n as int) =~= seq![0xdfu8, b1, b2, b3, b4]);
                assert forall|m: int|
                    0 <= m < 0x1_0000_0000 && starts_at(
                        self.buf@,
                        old(self).pos as int,
                        map_header_bytes(m),
                    ) implies m == n as int by {
                    assert(map_header_bytes(m)[0] == self.buf@[old(self).pos as int]);
                    assert(0x1_0000 <= m < 0x1_0000_0000);
                    lemma_be4_digits(m);
                    assert(map_header_bytes(m)[1] == b1 && map_header_bytes(m)[2] == b2
                        && map_header_bytes(m)[3] == b3 && map_header_bytes(m)[4] == b4);
                    lemma_be4_value(m, b1, b2, b3, b4);
                }
            }
            Some(n)
        } else {
            proof {
                assert forall|m: int|
                    0 <= m < 0x1_0000_0000 implies !starts_at(
                    self.buf@,
                    self.pos as int,
                    map_header_bytes(m),
                ) by {
                    assert(map_header_bytes(m)[0] == self.buf@[self.pos as int] ==> false);
                }
            }
            None
        }
    }

    /// Consumes a canonical array header.
    #[verifier::rlimit(80)]
    pub fn take_array_header(&mut self) -> (r: Option<u64>)
        requires
            old(self).wf(),
        ensures
            final(self).buf == old(self).buf,
            final(self).wf(),
            r matches Some(n) ==> n < 0x1_0000_0000 && starts_at(
                old(self).buf@,
                old(self).pos as int,
                array_header_bytes(n as int),
            ) && final(self).pos == old(self).pos + array_header_bytes(n as int).len(),
            forall|m: int|
                0 <= m < 0x1_0000_0000 && starts_at(
                    old(self).buf@,
                    old(self).pos as int,
                    array_header_bytes(m),
                ) ==> r == Some(m as u64),
    {
        let len = self.buf.len();
        if self.pos >= len {
            proof {
                assert forall|m: int|
                    0 <= m < 0x1_0000_0000 implies !starts_at(
                    self.buf@,
                    self.pos as int,
                    array_header_bytes(m),
                ) by {
                    assert(array_header_bytes(m).len() >= 1);
                }
            }
            return None;
        }
        let b0 = self.buf[self.pos];
        if 0x90 <= b0 && b0 <= 0x9f {
            self.pos = self.pos + 1;
            let n = (b0 - 0x90) as u64;
            proof {
                assert(self.buf@.subrange(old(self).pos as int, old(self).pos + 1) =~= seq![b0]);
                assert(array_header_bytes(n as int) =~= seq![b0]);
                assert forall|m: int|
                    0 <= m < 0x1_0000_0000 && starts_at(
                        self.buf@,
                        old(self).pos as int,
                        array_header_bytes(m),
                    ) implies m == n as int by {
                    assert(array_header_bytes(m)[0] == self.buf@[old(self).pos as int]);
                }
            }
            Some(n)
        } else if b0 == 0xdc {
            if len - self.pos < 3 {
                proof {
                    assert forall|m: int|
                        0 <= m < 0x1_0000_0000 implies !starts_at(
                        self.buf@,
                        self.pos as int,
                        array_header_bytes(m),
                    ) by {
                        assert(array_header_bytes(m)[0] == self.buf@[self.pos as int] ==> 16 <= m
                            < 0x1_0000);
                    }
                }
                return None;
            }
            let b1 = self.buf[self.pos + 1];
            let b2 = self.buf[self.pos + 2];
            let n = (b1 as u64) * 0x100 + (b2 as u64);
            if n < 16 {
                proof {
                    assert forall|m: int|
                        0 <= m < 0x1_0000_0000 implies !starts_at(
                        self.buf@,
                        self.pos as int,
                        array_header_bytes(m),
                    ) by {
                        if starts_at(self.buf@, self.pos as int, array_header_bytes(m)) {
                            assert(array_header_bytes(m)[0] == self.buf@[self.pos as int]);
                            assert(16 <= m < 0x1_0000);
                            assert(array_header_bytes(m)[1] == b1 && array_header_bytes(m)[2]
                                == b2);
                            assert(m == (b1 as int) * 0x100 + (b2 as int));
                        }
                    }
                }
                return None;
            }
            self.pos = self.pos + 3;
            proof {
                assert(self.buf@.subrange(old(self).pos as int, old(self).pos + 3) =~= seq![
                    0xdcu8,
                    b1,
                    b2,
                ]);
                assert(be2(n as int) =~= seq![b1, b2]);
                assert(array_header_bytes(n as int) =~= seq![0xdcu8, b1, b2]);
                assert forall|m: int|
                    0 <= m < 0x1_0000_0000 && starts_at(
                        self.buf@,
                        old(self).pos as int,
                        array_header_bytes(m),
                    ) implies m == n as int by {
                    assert(array_header_bytes(m)[0] == self.buf@[old(self).pos as int]);
                    assert(16 <= m < 0x1_0000);
                    assert(array_header_bytes(m)[1] == b1 && array_header_bytes(m)[2] == b2);
                    assert(m == (b1 as int) * 0x100 + (b2 as int));
                }
            }
            Some(n)
        } else if b0 == 0xdd {
            if len - self.pos < 5 {
                proof {
                    assert forall|m: int|
                        0 <= m < 0x1_0000_0000 implies !starts_at(
                        self.buf@,
                        self.pos as int,
                        array_header_bytes(m),
                    ) by {
                        assert(array_header_bytes(m)[0] == self.buf@[self.pos as int] ==> 0x1_0000
                            <= m < 0x1_0000_0000);
                    }
                }
                return None;
            }
            let b1 = self.buf[self.pos + 1];
            let b2 = self.buf[self.pos + 2];
            let b3 = self.buf[self.pos + 3];
            let b4 = self.buf[self.pos + 4];
            let n = (b1 as u64) * 0x100_0000 + (b2 as u64) * 0x1_0000 + (b3 as u64) * 0x100 + (
            b4 as u64);
            if n < 0x1_0000 {
                proof {
                    assert forall|m: int|
                        0 <= m < 0x1_0000_0000 implies !starts_at(
                        self.buf@,
                        self.pos as int,
                        array_header_bytes(m),
                    ) by {
                        if starts_at(self.buf@, self.pos as int, array_header_bytes(m)) {
                            assert(array_header_bytes(m)[0] == self.buf@[self.pos as int]);
                            assert(0x1_0000 <= m < 0x1_0000_0000);
                            lemma_be4_digits(m);
                            assert(array_header_bytes(m)[1] == b1 && array_header_bytes(m)[2]
                                == b2 && array_header_bytes(m)[3] == b3 && array_header_bytes(
                                m,
                            )[4] == b4);
                            lemma_be4_value(m, b1, b2, b3, b4);
                        }
                    }
                }
                return None;
            }
            self.pos = self.pos + 5;
            proof {
                assert(self.buf@.subrange(old(self).pos as int, old(self).pos + 5) =~= seq![
                    0xddu8,
                    b1,
                    b2,
                    b3,
                    b4,
                ]);
                lemma_be4_digits(n as int);
                assert(be4(n as int) =~= seq![b1, b2, b3, b4]) by {
                    lemma_be4_compose(b1, b2, b3, b4);
                }
                assert(array_header_bytes(n as int) =~= seq![0xddu8, b1, b2, b3, b4]);
                assert forall|m: int|
                    0 <= m < 0x1_0000_0000 && starts_at(
                        self.buf@,
                        old(self).pos as int,
                        array_header_bytes(m),
                    ) implies m == n as int by {
                    assert(array_header_bytes(m)[0] == self.buf@[old(self).pos as int]);
                    assert(0x1_0000 <= m < 0x1_0000_0000);
                    lemma_be4_digits(m);
                    assert(array_header_bytes(m)[1] == b1 && array_header_bytes(m)[2] == b2
                        && array_header_bytes(m)[3] == b3 && array_header_bytes(m)[4] == b4);
                    lemma_be4_value(m, b1, b2, b3, b4);
                }
            }
            Some(n)
        } else {
            proof {
                assert forall|m: int|
                    0 <= m < 0x1_0000_0000 implies !starts_at(
                    self.buf@,
                    self.pos as int,
                    array_header_bytes(m),
                ) by {
                    assert(array_header_bytes(m)[0] == self.buf@[self.pos as int] ==> false);
                }
            }
            None
        }
    }
}

/// The big-endian digits of a value below 2^32 are bytes.
pub proof fn lemma_be4_digits(v: int)
    requires
        0 <= v < 0x1_0000_0000,
    ensures
        0 <= v / 0x100_0000 < 0x100,
        0 <= (v / 0x1_0000) % 0x100 < 0x100,
        0 <= (v / 0x100) % 0x100 < 0x100,
        0 <= v % 0x100 < 0x100,
{
}

/// Recomposing four big-endian digits yields the value they encode.
pub proof fn lemma_be4_value(v: int, b1: u8, b2: u8, b3: u8, b4: u8)
    requires
        0 <= v < 0x1_0000_0000,
        b1 as int == v / 0x100_0000,
        b2 as int == (v / 0x1_0000) % 0x100,
        b3 as int == (v / 0x100) % 0x100,
        b4 as int == v % 0x100,
    ensures
        v == (b1 as int) * 0x100_0000 + (b2 as int) * 0x1_0000 + (b3 as int) * 0x100 + (b4 as int),
{
    lemma_be4_compose(b1, b2, b3, b4);
}

/// Four bytes compose to a value whose big-endian digits they are.
pub proof fn lemma_be4_compose(b1: u8, b2: u8, b3: u8, b4: u8)
    ensures
        ({
            let v = (b1 as int) * 0x100_0000 + (b2 as int) * 0x1_0000 + (b3 as int) * 0x100 + (
            b4 as int);
            &&& 0 <= v < 0x1_0000_0000
            &&& v / 0x100_0000 == b1 as int
            &&& (v / 0x1_0000) % 0x100 == b2 as int
            &&& (v / 0x100) % 0x100 == b3 as int
            &&& v % 0x100 == b4 as int
        }),
{
    let v = (b1 as int) * 0x100_0000 + (b2 as int) * 0x1_0000 + (b3 as int) * 0x100 + (b4 as int);
    assert(v / 0x100_0000 == b1 as int && (v / 0x1_0000) % 0x100 == b2 as int && (v / 0x100)
        % 0x100 == b3 as int && v % 0x100 == b4 as int) by (nonlinear_arith)
        requires
            b1 < 0x100 && b2 < 0x100 && b3 < 0x100 && b4 < 0x100,
            v == (b1 as int) * 0x100_0000 + (b2 as int) * 0x1_0000 + (b3 as int) * 0x100 + (
            b4 as int),
    ;
}

/// A UTF-8 encoding takes at most four bytes per character.
pub proof fn lemma_encode_utf8_len(s: Seq<char>)
    ensures
        vstd::utf8::encode_utf8(s).len() <= 4 * s.len(),
    decreases s.len(),
{
    if s.len() > 0 {
        lemma_encode_utf8_len(s.drop_first());
        assert(vstd::utf8::encode_scalar(s[0] as u32).len() <= 4);
    }
}

/// Concatenation of byte strings associates.
pub proof fn lemma_bytes_assoc(a: Seq<u8>, b: Seq<u8>, c: Seq<u8>)
    ensures
        (a + b) + c == a + (b + c),
{
    assert((a + b) + c =~= a + (b + c));
}

/// A pattern made of two parts occurs exactly when the parts occur in
/// sequence.
pub proof fn lemma_starts_at_concat(buf: Seq<u8>, pos: int, a: Seq<u8>, b: Seq<u8>)
    requires
        starts_at(buf, pos, a + b),
    ensures
        starts_at(buf, pos, a),
        starts_at(buf, pos + a.len(), b),
{
    let whole = buf.subrange(pos, pos + a.len() as int + b.len() as int);
    assert(buf.subrange(pos, pos + a.len() as int) =~= whole.subrange(0, a.len() as int));
    assert(whole.subrange(0, a.len() as int) =~= a);
    assert(buf.subrange(pos + a.len() as int, pos + a.len() as int + b.len() as int) =~= whole.subrange(
        a.len() as int,
        a.len() as int + b.len() as int,
    ));
    assert(whole.subrange(a.len() as int, a.len() as int + b.len() as int) =~= b);
}

/// Two parts occurring in sequence make the concatenated pattern occur.
pub proof fn lemma_concat_starts_at(buf: Seq<u8>, pos: int, a: Seq<u8>, b: Seq<u8>)
    requires
        starts_at(buf, pos, a),
        starts_at(buf, pos + a.len(), b),
    ensures
        starts_at(buf, pos, a + b),
{
    assert(buf.subrange(pos, pos + a.len() as int + b.len() as int) =~= buf.subrange(pos, pos + a.len() as int)
        + buf.subrange(pos + a.len() as int, pos + a.len() as int + b.len() as int));
}

/// Splitting a 64-bit value at 2^32: quotient and remainder of the
/// recomposition are the halves themselves.
pub proof fn lemma_split64(hi: int, lo: int)
    requires
        0 <= hi < 0x1_0000_0000,
        0 <= lo < 0x1_0000_0000,
    ensures
        (hi * 0x1_0000_0000 + lo) / 0x1_0000_0000 == hi,
        (hi * 0x1_0000_0000 + lo) % 0x1_0000_0000 == lo,
        0 <= hi * 0x1_0000_0000 + lo <= u64::MAX,
{
    assert((hi * 0x1_0000_0000 + lo) / 0x1_0000_0000 == hi && (hi * 0x1_0000_0000 + lo)
        % 0x1_0000_0000 == lo && 0 <= hi * 0x1_0000_0000 + lo <= u64::MAX) by (nonlinear_arith)
        requires
            0 <= hi < 0x1_0000_0000,
            0 <= lo < 0x1_0000_0000,
    ;
}

} // verus!
