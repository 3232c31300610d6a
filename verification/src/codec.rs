//! Field-level helpers over the MessagePack layer: a named field is its key
//! string followed by its value, and a payload is a map of named fields in
//! declaration order. Encoders and decoders here carry the same exactness
//! and completeness contracts as the byte layer, so whole-payload round
//! trips follow by composition.

use vstd::prelude::*;
use vstd::string::StringSliceAdditionalSpecFns;
use crate::msgpack::ByteReader;
use crate::msgpack::bool_bytes;
use crate::msgpack::f32_bytes;
use crate::msgpack::lemma_concat_starts_at;
use crate::msgpack::lemma_starts_at_concat;
use crate::msgpack::map_header_bytes;
use crate::msgpack::nil_bytes;
use crate::msgpack::put_bool;
use crate::msgpack::put_f32_bits;
use crate::msgpack::put_nil;
use crate::msgpack::put_str;
use crate::msgpack::put_uint;
use crate::msgpack::starts_at;
use crate::msgpack::str_bytes;
use crate::msgpack::str_len_bytes;
use crate::msgpack::uint_bytes;
use crate::strutil::str_eq;

verus! {

/// The UTF-8 form of the string fits a 32-bit length.
pub open spec fn wf_chars(s: Seq<char>) -> bool {
    vstd::utf8::encode_utf8(s).len() < 0x1_0000_0000
}

pub open spec fn kv_str(key: Seq<char>, val: Seq<char>) -> Seq<u8> {
    str_bytes(key) + str_bytes(val)
}

pub open spec fn kv_uint(key: Seq<char>, v: u64) -> Seq<u8> {
    str_bytes(key) + uint_bytes(v)
}

pub open spec fn kv_bool(key: Seq<char>, b: bool) -> Seq<u8> {
    str_bytes(key) + bool_bytes(b)
}

pub open spec fn kv_f32(key: Seq<char>, bits: u32) -> Seq<u8> {
    str_bytes(key) + f32_bytes(bits)
}

/// An optional string value: nil when absent.
pub open spec fn opt_str_bytes(v: Option<Seq<char>>) -> Seq<u8> {
    match v {
        Some(s) => str_bytes(s),
        None => nil_bytes(),
    }
}

pub open spec fn kv_opt_str(key: Seq<char>, v: Option<Seq<char>>) -> Seq<u8> {
    str_bytes(key) + opt_str_bytes(v)
}

/// An optional unsigned value: nil when absent.
pub open spec fn opt_uint_bytes(v: Option<u64>) -> Seq<u8> {
    match v {
        Some(u) => uint_bytes(u),
        None => nil_bytes(),
    }
}

pub open spec fn kv_opt_uint(key: Seq<char>, v: Option<u64>) -> Seq<u8> {
    str_bytes(key) + opt_uint_bytes(v)
}

pub open spec fn wf_opt_chars(v: Option<Seq<char>>) -> bool {
    match v {
        Some(s) => wf_chars(s),
        None => true,
    }
}

// ------------------------------------------------------------------
// Field writers.
// ------------------------------------------------------------------

/// Appends a string field. Fails exactly when key or value is oversized.
pub fn put_kv_str(out: &mut Vec<u8>, key: &str, val: &str) -> (ok: bool)
    ensures
        ok == (wf_chars(key@) && wf_chars(val@)),
        ok ==> final(out)@ == old(out)@ + kv_str(key@, val@),
{
    if !put_str(out, key) {
        return false;
    }
    put_str(out, val)
}

/// Appends an unsigned integer field. Fails exactly when the key is
/// oversized.
pub fn put_kv_uint(out: &mut Vec<u8>, key: &str, v: u64) -> (ok: bool)
    ensures
        ok == wf_chars(key@),
        ok ==> final(out)@ == old(out)@ + kv_uint(key@, v),
{
    if !put_str(out, key) {
        return false;
    }
    put_uint(out, v);
    true
}

/// Appends a boolean field. Fails exactly when the key is oversized.
pub fn put_kv_bool(out: &mut Vec<u8>, key: &str, b: bool) -> (ok: bool)
    ensures
        ok == wf_chars(key@),
        ok ==> final(out)@ == old(out)@ + kv_bool(key@, b),
{
    if !put_str(out, key) {
        return false;
    }
    put_bool(out, b);
    true
}

/// Appends a 32-bit float field by its bits. Fails exactly when the key is
/// oversized.
pub fn put_kv_f32(out: &mut Vec<u8>, key: &str, bits: u32) -> (ok: bool)
    ensures
        ok == wf_chars(key@),
        ok ==> final(out)@ == old(out)@ + kv_f32(key@, bits),
{
    if !put_str(out, key) {
        return false;
    }
    put_f32_bits(out, bits);
    true
}

/// Appends an optional string field. Fails exactly when key or a present
/// value is oversized.
pub fn put_kv_opt_str(out: &mut Vec<u8>, key: &str, val: &Option<String>) -> (ok: bool)
    ensures
        ok == (wf_chars(key@) && wf_opt_chars(match val {
            Some(s) => Some(s@),
            None => None,
        })),
        ok ==> final(out)@ == old(out)@ + kv_opt_str(key@, match val {
            Some(s) => Some(s@),
            None => None,
        }),
{
    if !put_str(out, key) {
        return false;
    }
    match val {
        Some(s) => put_str(out, s.as_str()),
        None => {
            put_nil(out);
            true
        },
    }
}

/// Appends an optional unsigned field. Fails exactly when the key is
/// oversized.
pub fn put_kv_opt_uint(out: &mut Vec<u8>, key: &str, val: &Option<u64>) -> (ok: bool)
    ensures
        ok == wf_chars(key@),
        ok ==> final(out)@ == old(out)@ + kv_opt_uint(key@, *val),
{
    if !put_str(out, key) {
        return false;
    }
    match val {
        Some(u) => put_uint(out, *u),
        None => put_nil(out),
    }
    true
}

// ------------------------------------------------------------------
// Field readers.
// ------------------------------------------------------------------

impl<'a> ByteReader<'a> {
    /// Consumes the exact key string `key`.
    pub fn take_key(&mut self, key: &str) -> (r: bool)
        requires
            old(self).wf(),
        ensures
            final(self).buf == old(self).buf,
            final(self).wf(),
            r ==> starts_at(old(self).buf@, old(self).pos as int, str_bytes(key@))
                && final(self).pos == old(self).pos + str_bytes(key@).len(),
            wf_chars(key@) && starts_at(old(self).buf@, old(self).pos as int, str_bytes(key@))
                ==> r,
    {
        match self.take_str() {
            Some(k) => {
                if str_eq(k.as_str(), key) {
                    true
                } else {
                    false
                }
            },
            None => false,
        }
    }

    /// Consumes a string field with the given key.
    pub fn take_str_field(&mut self, key: &str) -> (r: Option<String>)
        requires
            old(self).wf(),
        ensures
            final(self).buf == old(self).buf,
            final(self).wf(),
            r matches Some(s) ==> wf_chars(s@) && starts_at(
                old(self).buf@,
                old(self).pos as int,
                kv_str(key@, s@),
            ) && final(self).pos == old(self).pos + kv_str(key@, s@).len(),
            forall|t: Seq<char>|
                wf_chars(key@) && wf_chars(t) && starts_at(
                    old(self).buf@,
                    old(self).pos as int,
                    kv_str(key@, t),
                ) ==> r is Some && r.unwrap()@ == t,
    {
        let ghost obuf = self.buf@;
        let ghost opos = self.pos as int;
        proof {
            assert forall|t: Seq<char>|
                starts_at(obuf, opos, kv_str(key@, t)) implies starts_at(
                obuf,
                opos,
                str_bytes(key@),
            ) && starts_at(obuf, opos + str_bytes(key@).len(), str_bytes(t)) by {
                lemma_starts_at_concat(obuf, opos, str_bytes(key@), str_bytes(t));
            }
        }
        if !self.take_key(key) {
            return None;
        }
        let v = match self.take_str() {
            Some(v) => v,
            None => {
                return None;
            },
        };
        proof {
            lemma_concat_starts_at(obuf, opos, str_bytes(key@), str_bytes(v@));
        }
        Some(v)
    }

    /// Consumes an unsigned integer field with the given key.
    pub fn take_uint_field(&mut self, key: &str) -> (r: Option<u64>)
        requires
            old(self).wf(),
        ensures
            final(self).buf == old(self).buf,
            final(self).wf(),
            r matches Some(v) ==> starts_at(
                old(self).buf@,
                old(self).pos as int,
                kv_uint(key@, v),
            ) && final(self).pos == old(self).pos + kv_uint(key@, v).len(),
            forall|u: u64|
                wf_chars(key@) && starts_at(old(self).buf@, old(self).pos as int, kv_uint(key@, u))
                    ==> r == Some(u),
    {
        let ghost obuf = self.buf@;
        let ghost opos = self.pos as int;
        proof {
            assert forall|u: u64|
                starts_at(obuf, opos, kv_uint(key@, u)) implies starts_at(
                obuf,
                opos,
                str_bytes(key@),
            ) && starts_at(obuf, opos + str_bytes(key@).len(), uint_bytes(u)) by {
                lemma_starts_at_concat(obuf, opos, str_bytes(key@), uint_bytes(u));
            }
        }
        if !self.take_key(key) {
            return None;
        }
        let v = match self.take_uint() {
            Some(v) => v,
            None => {
                return None;
            },
        };
        proof {
            lemma_concat_starts_at(obuf, opos, str_bytes(key@), uint_bytes(v));
        }
        Some(v)
    }

    /// Consumes a boolean field with the given key.
    pub fn take_bool_field(&mut self, key: &str) -> (r: Option<bool>)
        requires
            old(self).wf(),
        ensures
            final(self).buf == old(self).buf,
            final(self).wf(),
            r matches Some(b) ==> starts_at(
                old(self).buf@,
                old(self).pos as int,
                kv_bool(key@, b),
            ) && final(self).pos == old(self).pos + kv_bool(key@, b).len(),
            forall|b: bool|
                wf_chars(key@) && starts_at(old(self).buf@, old(self).pos as int, kv_bool(key@, b))
                    ==> r == Some(b),
    {
        let ghost obuf = self.buf@;
        let ghost opos = self.pos as int;
        proof {
            assert forall|b: bool|
                starts_at(obuf, opos, kv_bool(key@, b)) implies starts_at(
                obuf,
                opos,
                str_bytes(key@),
            ) && starts_at(obuf, opos + str_bytes(key@).len(), bool_bytes(b)) by {
                lemma_starts_at_concat(obuf, opos, str_bytes(key@), bool_bytes(b));
            }
        }
        if !self.take_key(key) {
            return None;
        }
        let v = match self.take_bool() {
            Some(v) => v,
            None => {
                return None;
            },
        };
        proof {
            lemma_concat_starts_at(obuf, opos, str_bytes(key@), bool_bytes(v));
        }
        Some(v)
    }

    /// Consumes a 32-bit float field with the given key, as bits.
    pub fn take_f32_field(&mut self, key: &str) -> (r: Option<u32>)
        requires
            old(self).wf(),
        ensures
            final(self).buf == old(self).buf,
            final(self).wf(),
            r matches Some(bits) ==> starts_at(
                old(self).buf@,
                old(self).pos as int,
                kv_f32(key@, bits),
            ) && final(self).pos == old(self).pos + kv_f32(key@, bits).len(),
            forall|bits: u32|
                wf_chars(key@) && starts_at(
                    old(self).buf@,
                    old(self).pos as int,
                    kv_f32(key@, bits),
                ) ==> r == Some(bits),
    {
        let ghost obuf = self.buf@;
        let ghost opos = self.pos as int;
        proof {
            assert forall|bits: u32|
                starts_at(obuf, opos, kv_f32(key@, bits)) implies starts_at(
                obuf,
                opos,
                str_bytes(key@),
            ) && starts_at(obuf, opos + str_bytes(key@).len(), f32_bytes(bits)) by {
                lemma_starts_at_concat(obuf, opos, str_bytes(key@), f32_bytes(bits));
            }
        }
        if !self.take_key(key) {
            return None;
        }
        let v = match self.take_f32_bits() {
            Some(v) => v,
            None => {
                return None;
            },
        };
        proof {
            lemma_concat_starts_at(obuf, opos, str_bytes(key@), f32_bytes(v));
        }
        Some(v)
    }

    /// Consumes an optional string field with the given key.
    pub fn take_opt_str_field(&mut self, key: &str) -> (r: Option<Option<String>>)
        requires
            old(self).wf(),
        ensures
            final(self).buf == old(self).buf,
            final(self).wf(),
            r matches Some(v) ==> wf_opt_chars(match v {
                Some(s) => Some(s@),
                None => None,
            }) && starts_at(old(self).buf@, old(self).pos as int, kv_opt_str(key@, match v {
                Some(s) => Some(s@),
                None => None,
            })) && final(self).pos == old(self).pos + kv_opt_str(key@, match v {
                Some(s) => Some(s@),
                None => None,
            }).len(),
            forall|t: Option<Seq<char>>|
                wf_chars(key@) && wf_opt_chars(t) && starts_at(
                    old(self).buf@,
                    old(self).pos as int,
                    kv_opt_str(key@, t),
                ) ==> r is Some && (match r.unwrap() {
                    Some(s) => Some(s@),
                    None => None,
                }) == t,
    {
        let ghost obuf = self.buf@;
        let ghost opos = self.pos as int;
        proof {
            assert forall|t: Option<Seq<char>>|
                starts_at(obuf, opos, kv_opt_str(key@, t)) implies starts_at(
                obuf,
                opos,
                str_bytes(key@),
            ) && starts_at(obuf, opos + str_bytes(key@).len(), opt_str_bytes(t)) by {
                lemma_starts_at_concat(obuf, opos, str_bytes(key@), opt_str_bytes(t));
            }
        }
        if !self.take_key(key) {
            return None;
        }
        if self.take_nil() {
            proof {
                lemma_concat_starts_at(obuf, opos, str_bytes(key@), nil_bytes());
                assert forall|t: Option<Seq<char>>|
                    wf_chars(key@) && wf_opt_chars(t) && starts_at(
                        obuf,
                        opos,
                        kv_opt_str(key@, t),
                    ) implies t is None by {
                    match t {
                        Some(s) => {
                            lemma_str_bytes_not_nil(obuf, opos + str_bytes(key@).len(), s);
                        },
                        None => {},
                    }
                }
            }
            return Some(None);
        }
        let v = match self.take_str() {
            Some(v) => v,
            None => {
                return None;
            },
        };
        proof {
            lemma_concat_starts_at(obuf, opos, str_bytes(key@), str_bytes(v@));
            assert forall|t: Option<Seq<char>>|
                wf_chars(key@) && wf_opt_chars(t) && starts_at(
                    obuf,
                    opos,
                    kv_opt_str(key@, t),
                ) implies t is Some by {
                if t is None {
                    assert(starts_at(obuf, opos + str_bytes(key@).len(), nil_bytes()));
                }
            }
        }
        Some(Some(v))
    }

    /// Consumes an optional unsigned field with the given key.
    pub fn take_opt_uint_field(&mut self, key: &str) -> (r: Option<Option<u64>>)
        requires
            old(self).wf(),
        ensures
            final(self).buf == old(self).buf,
            final(self).wf(),
            r matches Some(v) ==> starts_at(
                old(self).buf@,
                old(self).pos as int,
                kv_opt_uint(key@, v),
            ) && final(self).pos == old(self).pos + kv_opt_uint(key@, v).len(),
            forall|t: Option<u64>|
                wf_chars(key@) && starts_at(
                    old(self).buf@,
                    old(self).pos as int,
                    kv_opt_uint(key@, t),
                ) ==> r == Some(t),
    {
        let ghost obuf = self.buf@;
        let ghost opos = self.pos as int;
        proof {
            assert forall|t: Option<u64>|
                starts_at(obuf, opos, kv_opt_uint(key@, t)) implies starts_at(
                obuf,
                opos,
                str_bytes(key@),
            ) && starts_at(obuf, opos + str_bytes(key@).len(), opt_uint_bytes(t)) by {
                lemma_starts_at_concat(obuf, opos, str_bytes(key@), opt_uint_bytes(t));
            }
        }
        if !self.take_key(key) {
            return None;
        }
        if self.take_nil() {
            proof {
                lemma_concat_starts_at(obuf, opos, str_bytes(key@), nil_bytes());
                assert forall|t: Option<u64>|
                    wf_chars(key@) && starts_at(obuf, opos, kv_opt_uint(key@, t)) implies t
                    is None by {
                    match t {
                        Some(u) => {
                            lemma_uint_bytes_not_nil(obuf, opos + str_bytes(key@).len(), u);
                        },
                        None => {},
                    }
                }
            }
            return Some(None);
        }
        let v = match self.take_uint() {
            Some(v) => v,
            None => {
                return None;
            },
        };
        proof {
            lemma_concat_starts_at(obuf, opos, str_bytes(key@), uint_bytes(v));
            assert forall|t: Option<u64>|
                wf_chars(key@) && starts_at(obuf, opos, kv_opt_uint(key@, t)) implies t
                is Some by {
                if t is None {
                    assert(starts_at(obuf, opos + str_bytes(key@).len(), nil_bytes()));
                }
            }
        }
        Some(Some(v))
    }
}

/// A payload is a concatenation of parts; this names the concatenation.
pub open spec fn concat_parts(parts: Seq<Seq<u8>>) -> Seq<u8>
    decreases parts.len(),
{
    if parts.len() == 0 {
        Seq::empty()
    } else {
        concat_parts(parts.drop_last()) + parts.last()
    }
}

/// Total length of the first `k` parts.
pub open spec fn parts_prefix_len(parts: Seq<Seq<u8>>, k: int) -> int
    decreases k,
{
    if k <= 0 {
        0
    } else {
        parts_prefix_len(parts, k - 1) + parts[k - 1].len()
    }
}

pub proof fn lemma_concat_parts_len(parts: Seq<Seq<u8>>)
    ensures
        concat_parts(parts).len() == parts_prefix_len(parts, parts.len() as int),
    decreases parts.len(),
{
    if parts.len() > 0 {
        lemma_concat_parts_len(parts.drop_last());
        assert forall|k: int| 0 <= k < parts.len() - 1 implies parts.drop_last()[k]
            == parts[k] by {}
        lemma_parts_prefix_len_same(parts.drop_last(), parts, parts.len() as int - 1);
    }
}

/// Prefix lengths agree between two part lists that agree on the first `k`
/// parts.
pub proof fn lemma_parts_prefix_len_same(a: Seq<Seq<u8>>, b: Seq<Seq<u8>>, k: int)
    requires
        0 <= k <= a.len(),
        k <= b.len(),
        forall|i: int| 0 <= i < k ==> a[i] == b[i],
    ensures
        parts_prefix_len(a, k) == parts_prefix_len(b, k),
    decreases k,
{
    if k > 0 {
        lemma_parts_prefix_len_same(a, b, k - 1);
    }
}

/// Where a concatenation of parts occurs, each part occurs at its offset.
pub proof fn lemma_parts_starts_at(buf: Seq<u8>, pos: int, parts: Seq<Seq<u8>>)
    requires
        starts_at(buf, pos, concat_parts(parts)),
    ensures
        forall|k: int|
            0 <= k < parts.len() ==> starts_at(
                buf,
                pos + parts_prefix_len(parts, k),
                #[trigger] parts[k],
            ),
    decreases parts.len(),
{
    if parts.len() > 0 {
        let front = parts.drop_last();
        lemma_concat_parts_len(front);
        lemma_starts_at_concat(buf, pos, concat_parts(front), parts.last());
        lemma_parts_starts_at(buf, pos, front);
        assert forall|k: int| 0 <= k < parts.len() implies starts_at(
            buf,
            pos + parts_prefix_len(parts, k),
            #[trigger] parts[k],
        ) by {
            if k < parts.len() - 1 {
                assert(front[k] == parts[k]);
                lemma_parts_prefix_len_same(front, parts, k);
            } else {
                lemma_parts_prefix_len_same(front, parts, k);
                assert(parts_prefix_len(parts, k) == parts_prefix_len(front, front.len() as int));
            }
        }
    }
}

/// When every part occurs at its offset, the whole concatenation occurs.
pub proof fn lemma_parts_concat_starts_at(buf: Seq<u8>, pos: int, parts: Seq<Seq<u8>>)
    requires
        0 <= pos <= buf.len(),
        forall|k: int|
            0 <= k < parts.len() ==> starts_at(
                buf,
                pos + parts_prefix_len(parts, k),
                #[trigger] parts[k],
            ),
    ensures
        starts_at(buf, pos, concat_parts(parts)),
    decreases parts.len(),
{
    if parts.len() == 0 {
        assert(buf.subrange(pos, pos) =~= concat_parts(parts));
    } else {
        let front = parts.drop_last();
        assert forall|k: int| 0 <= k < front.len() implies starts_at(
            buf,
            pos + parts_prefix_len(front, k),
            #[trigger] front[k],
        ) by {
            assert(front[k] == parts[k]);
            lemma_parts_prefix_len_same(front, parts, k);
        }
        lemma_parts_concat_starts_at(buf, pos, front);
        lemma_concat_parts_len(front);
        lemma_parts_prefix_len_same(front, parts, parts.len() as int - 1);
        assert(starts_at(buf, pos + parts_prefix_len(parts, parts.len() - 1), parts.last()));
        lemma_concat_starts_at(buf, pos, concat_parts(front), parts.last());
    }
}

impl<'a> ByteReader<'a> {
    /// Consumes an unsigned field that must fit 32 bits.
    pub fn take_u32_field(&mut self, key: &str) -> (r: Option<u32>)
        requires
            old(self).wf(),
        ensures
            final(self).buf == old(self).buf,
            final(self).wf(),
            r matches Some(v) ==> starts_at(
                old(self).buf@,
                old(self).pos as int,
                kv_uint(key@, v as u64),
            ) && final(self).pos == old(self).pos + kv_uint(key@, v as u64).len(),
            forall|u: u32|
                wf_chars(key@) && starts_at(
                    old(self).buf@,
                    old(self).pos as int,
                    kv_uint(key@, u as u64),
                ) ==> r == Some(u),
    {
        match self.take_uint_field(key) {
            Some(v) => if v <= 0xffff_ffffu64 {
                Some(v as u32)
            } else {
                None
            },
            None => None,
        }
    }

    /// Consumes an unsigned field that must fit 8 bits.
    pub fn take_u8_field(&mut self, key: &str) -> (r: Option<u8>)
        requires
            old(self).wf(),
        ensures
            final(self).buf == old(self).buf,
            final(self).wf(),
            r matches Some(v) ==> starts_at(
                old(self).buf@,
                old(self).pos as int,
                kv_uint(key@, v as u64),
            ) && final(self).pos == old(self).pos + kv_uint(key@, v as u64).len(),
            forall|u: u8|
                wf_chars(key@) && starts_at(
                    old(self).buf@,
                    old(self).pos as int,
                    kv_uint(key@, u as u64),
                ) ==> r == Some(u),
    {
        match self.take_uint_field(key) {
            Some(v) => if v <= 0xffu64 {
                Some(v as u8)
            } else {
                None
            },
            None => None,
        }
    }

    /// Consumes an optional unsigned field that must fit 32 bits when
    /// present.
    pub fn take_opt_u32_field(&mut self, key: &str) -> (r: Option<Option<u32>>)
        requires
            old(self).wf(),
        ensures
            final(self).buf == old(self).buf,
            final(self).wf(),
            r matches Some(v) ==> starts_at(
                old(self).buf@,
                old(self).pos as int,
                kv_opt_uint(key@, opt_u32_as_u64(v)),
            ) && final(self).pos == old(self).pos + kv_opt_uint(key@, opt_u32_as_u64(v)).len(),
            forall|t: Option<u32>|
                wf_chars(key@) && starts_at(
                    old(self).buf@,
                    old(self).pos as int,
                    kv_opt_uint(key@, opt_u32_as_u64(t)),
                ) ==> r == Some(t),
    {
        match self.take_opt_uint_field(key) {
            Some(Some(v)) => if v <= 0xffff_ffffu64 {
                Some(Some(v as u32))
            } else {
                None
            },
            Some(None) => Some(None),
            None => None,
        }
    }

    /// Consumes an optional unsigned field that must fit 8 bits when
    /// present.
    pub fn take_opt_u8_field(&mut self, key: &str) -> (r: Option<Option<u8>>)
        requires
            old(self).wf(),
        ensures
            final(self).buf == old(self).buf,
            final(self).wf(),
            r matches Some(v) ==> starts_at(
                old(self).buf@,
                old(self).pos as int,
                kv_opt_uint(key@, opt_u8_as_u64(v)),
            ) && final(self).pos == old(self).pos + kv_opt_uint(key@, opt_u8_as_u64(v)).len(),
            forall|t: Option<u8>|
                wf_chars(key@) && starts_at(
                    old(self).buf@,
                    old(self).pos as int,
                    kv_opt_uint(key@, opt_u8_as_u64(t)),
                ) ==> r == Some(t),
    {
        match self.take_opt_uint_field(key) {
            Some(Some(v)) => if v <= 0xffu64 {
                Some(Some(v as u8))
            } else {
                None
            },
            Some(None) => Some(None),
            None => None,
        }
    }
}

pub open spec fn opt_u32_as_u64(v: Option<u32>) -> Option<u64> {
    match v {
        Some(u) => Some(u as u64),
        None => None,
    }
}

pub open spec fn opt_u8_as_u64(v: Option<u8>) -> Option<u64> {
    match v {
        Some(u) => Some(u as u64),
        None => None,
    }
}

/// The view of an optional string.
pub open spec fn opt_view(v: Option<String>) -> Option<Seq<char>> {
    match v {
        Some(s) => Some(s@),
        None => None,
    }
}

/// A string encoding never begins with the nil marker, so a string value
/// and an absent value can never be confused.
pub proof fn lemma_str_bytes_not_nil(buf: Seq<u8>, pos: int, s: Seq<char>)
    ensures
        !(starts_at(buf, pos, str_bytes(s)) && starts_at(buf, pos, nil_bytes())),
{
    if starts_at(buf, pos, str_bytes(s)) && starts_at(buf, pos, nil_bytes()) {
        assert(buf.subrange(pos, pos + str_bytes(s).len() as int)[0] == buf[pos]);
        assert(buf.subrange(pos, pos + 1)[0] == buf[pos]);
        let n = vstd::utf8::encode_utf8(s).len() as int;
        assert(str_bytes(s)[0] == str_len_bytes(n)[0]);
        assert(str_len_bytes(n)[0] == 0xc0u8);
    }
}

/// An unsigned integer encoding never begins with the nil marker, so an
/// integer value and an absent value can never be confused.
pub proof fn lemma_uint_bytes_not_nil(buf: Seq<u8>, pos: int, u: u64)
    ensures
        !(starts_at(buf, pos, uint_bytes(u)) && starts_at(buf, pos, nil_bytes())),
{
    if starts_at(buf, pos, uint_bytes(u)) && starts_at(buf, pos, nil_bytes()) {
        assert(buf.subrange(pos, pos + uint_bytes(u).len() as int)[0] == buf[pos]);
        assert(buf.subrange(pos, pos + 1)[0] == buf[pos]);
        assert(uint_bytes(u)[0] == 0xc0u8);
    }
}

} // verus!
