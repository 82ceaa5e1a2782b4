//! The tag-dispatch decoder.
//!
//! [`Decoder`] holds a cursor into an in-memory slice and exposes the
//! primitive reads of the byte layer; [`MapDecoder`] and [`SeqDecoder`]
//! drive the compound and list iteration protocols; the `decode_*` methods
//! perform the recursive structural descent. Every routine's contract says
//! that it returns exactly what the specification parser in
//! [`crate::model`] assigns to its input bytes — the same value, the same
//! consumption, and the same error.

use vstd::prelude::*;
use vstd::slice::{slice_index_get, slice_subrange};
use vstd::string::StringSliceAdditionalSpecFns;
use vstd::utf8::{valid_utf8, encode_utf8_decode_utf8, is_scalar, char_u32_cast};
use crate::error::{Error, IoKind};
use crate::model::{
    ValueSpec, be_nat, pow256, i8_of, i16_of, i32_of, i64_of, sp_u8, sp_raw, sp_str, sp_header,
    sp_value, sp_list, sp_byte_array, sp_int_array, sp_long_array, sp_elems, sp_run, sp_entries,
    sp_root, sp_bool, sp_string, mutf8_first, mutf8_chars, lemma_pow256_mono,
    lemma_pow256_values, lemma_be_nat_bound,
    lemma_sp_str_bounds, lemma_sp_value_bounds, lemma_sp_entries_bounds, TAG_END, TAG_BYTE,
    TAG_SHORT, TAG_INT, TAG_LONG, TAG_FLOAT, TAG_DOUBLE, TAG_BYTE_ARRAY, TAG_STRING, TAG_LIST,
    TAG_COMPOUND, TAG_INT_ARRAY, TAG_LONG_ARRAY, MAX_DEPTH,
};
use crate::value::{
    Value, deep, deep_elems, deep_entries, lemma_deep_elems_push, lemma_deep_entries_push,
};

verus! {

/// Decode state over an in-memory source: the source and a cursor into it.
/// One value lives for one top-level decode call and carries no state
/// across calls.
pub struct Decoder<'a> {
    src: &'a [u8],
    pos: usize,
}

impl<'a> Decoder<'a> {
    /// The bytes not yet consumed.
    pub closed spec fn remaining(&self) -> Seq<u8> {
        self.src@.skip(self.pos as int)
    }

    /// The cursor never passes the end of the source.
    pub closed spec fn wf(&self) -> bool {
        self.pos <= self.src@.len()
    }

    /// The whole source this decoder was created over.
    pub closed spec fn source(&self) -> Seq<u8> {
        self.src@
    }

    /// Create a decoder over a given source.
    pub fn new(src: &'a [u8]) -> (r: Self)
        ensures
            r.wf(),
            r.remaining() == src@,
            r.source() == src@,
    {
        let r = Decoder { src, pos: 0 };
        proof {
            assert(r.remaining() =~= src@);
        }
        r
    }

    /// One raw byte, as the unsigned tag alphabet sees it.
    fn read_u8(&mut self) -> (r: Result<u8, Error>)
        requires
            old(self).wf(),
        ensures
            final(self).wf(),
            final(self).source() == old(self).source(),
            match sp_u8(old(self).remaining()) {
                Ok(p) => r matches Ok(b) && b == p.0 && final(self).remaining() == old(
                    self,
                ).remaining().skip(1),
                Err(e) => r matches Err(ae) && ae == e && *final(self) == *old(self),
            },
    {
        if self.pos < self.src.len() {
            let b = *slice_index_get(self.src, self.pos);
            self.pos = self.pos + 1;
            proof {
                assert(self.remaining() =~= old(self).remaining().skip(1));
                assert(old(self).remaining()[0] == b);
            }
            Ok(b)
        } else {
            proof {
                assert(old(self).remaining().len() == 0);
            }
            Err(Error::Io(IoKind::Eof))
        }
    }

    /// One signed byte.
    pub fn read_bare_byte(&mut self) -> (r: Result<i8, Error>)
        requires
            old(self).wf(),
        ensures
            final(self).wf(),
            final(self).source() == old(self).source(),
            match sp_u8(old(self).remaining()) {
                Ok(p) => r matches Ok(b) && b == i8_of(p.0) && final(self).remaining() == old(
                    self,
                ).remaining().skip(1),
                Err(e) => r matches Err(ae) && ae == e && *final(self) == *old(self),
            },
    {
        match self.read_u8() {
            Err(e) => Err(e),
            Ok(b) => {
                if b < 0x80 {
                    Ok(b as i8)
                } else {
                    Ok(((b as i16) - 0x100) as i8)
                }
            },
        }
    }

    /// A `w`-byte big-endian unsigned number, `w` at most 8.
    fn read_be(&mut self, w: usize) -> (r: Result<u64, Error>)
        requires
            old(self).wf(),
            1 <= w <= 8,
        ensures
            final(self).wf(),
            final(self).source() == old(self).source(),
            match sp_raw(old(self).remaining(), w as int) {
                Ok(p) => r matches Ok(x) && x == p.0 && final(self).remaining() == old(
                    self,
                ).remaining().skip(w as int),
                Err(e) => r matches Err(ae) && ae == e && *final(self) == *old(self),
            },
    {
        let ghost s = self.remaining();
        if self.src.len() - self.pos < w {
            return Err(Error::Io(IoKind::Eof));
        }
        let mut raw: u64 = 0;
        let mut i: usize = 0;
        while i < w
            invariant
                self == old(self),
                self.wf(),
                self.src@.len() <= usize::MAX,
                self.src@.len() - self.pos >= w,
                i <= w <= 8,
                s == self.remaining(),
                raw == be_nat(s.subrange(0, i as int)),
                raw < pow256(i as nat),
            decreases w - i,
        {
            let b = *slice_index_get(self.src, self.pos + i);
            proof {
                lemma_pow256_mono((i + 1) as nat, 8);
                lemma_pow256_values();
                assert(s.subrange(0, (i + 1) as int).drop_last() =~= s.subrange(0, i as int));
                assert(s.subrange(0, (i + 1) as int).last() == s[i as int]);
                assert(s[i as int] == self.src@[self.pos + i]);
                assert(raw * 256 + 256 <= pow256(i as nat) * 256);
            }
            raw = raw * 256 + (b as u64);
            i = i + 1;
        }
        self.pos = self.pos + w;
        proof {
            assert(s.subrange(0, w as int) =~= old(self).remaining().subrange(0, w as int));
            assert(self.remaining() =~= old(self).remaining().skip(w as int));
        }
        Ok(raw)
    }

    /// A two-byte big-endian signed integer.
    pub fn read_bare_short(&mut self) -> (r: Result<i16, Error>)
        requires
            old(self).wf(),
        ensures
            final(self).wf(),
            final(self).source() == old(self).source(),
            match sp_raw(old(self).remaining(), 2) {
                Ok(p) => r matches Ok(x) && x == i16_of(p.0) && final(self).remaining() == old(
                    self,
                ).remaining().skip(2),
                Err(e) => r matches Err(ae) && ae == e && *final(self) == *old(self),
            },
    {
        match self.read_be(2) {
            Err(e) => Err(e),
            Ok(raw) => {
                proof {
                    lemma_be_nat_bound(old(self).remaining().subrange(0, 2));
                    lemma_pow256_values();
                }
                if raw < 0x8000 {
                    Ok(raw as i16)
                } else {
                    Ok(((raw as i32) - 0x10000) as i16)
                }
            },
        }
    }

    /// A four-byte big-endian signed integer.
    pub fn read_bare_int(&mut self) -> (r: Result<i32, Error>)
        requires
            old(self).wf(),
        ensures
            final(self).wf(),
            final(self).source() == old(self).source(),
            match sp_raw(old(self).remaining(), 4) {
                Ok(p) => r matches Ok(x) && x == i32_of(p.0) && final(self).remaining() == old(
                    self,
                ).remaining().skip(4),
                Err(e) => r matches Err(ae) && ae == e && *final(self) == *old(self),
            },
    {
        match self.read_be(4) {
            Err(e) => Err(e),
            Ok(raw) => {
                proof {
                    lemma_be_nat_bound(old(self).remaining().subrange(0, 4));
                    lemma_pow256_values();
                }
                if raw < 0x80000000 {
                    Ok(raw as i32)
                } else {
                    Ok(((raw as i64) - 0x100000000) as i32)
                }
            },
        }
    }

    /// An eight-byte big-endian signed integer.
    pub fn read_bare_long(&mut self) -> (r: Result<i64, Error>)
        requires
            old(self).wf(),
        ensures
            final(self).wf(),
            final(self).source() == old(self).source(),
            match sp_raw(old(self).remaining(), 8) {
                Ok(p) => r matches Ok(x) && x == i64_of(p.0) && final(self).remaining() == old(
                    self,
                ).remaining().skip(8),
                Err(e) => r matches Err(ae) && ae == e && *final(self) == *old(self),
            },
    {
        match self.read_be(8) {
            Err(e) => Err(e),
            Ok(raw) => {
                proof {
                    lemma_be_nat_bound(old(self).remaining().subrange(0, 8));
                    lemma_pow256_values();
                }
                if raw < 0x8000000000000000 {
                    Ok(raw as i64)
                } else {
                    Ok(((raw as i128) - 0x10000000000000000) as i64)
                }
            },
        }
    }

    /// The raw bits of a four-byte IEEE-754 value.
    pub fn read_bare_float_bits(&mut self) -> (r: Result<u32, Error>)
        requires
            old(self).wf(),
        ensures
            final(self).wf(),
            final(self).source() == old(self).source(),
            match sp_raw(old(self).remaining(), 4) {
                Ok(p) => r matches Ok(x) && x == p.0 as u32 && final(self).remaining() == old(
                    self,
                ).remaining().skip(4),
                Err(e) => r matches Err(ae) && ae == e && *final(self) == *old(self),
            },
    {
        match self.read_be(4) {
            Err(e) => Err(e),
            Ok(raw) => {
                proof {
                    lemma_be_nat_bound(old(self).remaining().subrange(0, 4));
                    lemma_pow256_values();
                }
                Ok(raw as u32)
            },
        }
    }

    /// A length-prefixed string with the ownership the caller asked for.
    /// A payload that is already plain UTF-8 is borrowed straight out of
    /// the source; one in the tolerated modified encoding is converted
    /// into a copy; a caller that demands ownership always gets it.
    pub fn read_bare_string(&mut self, force_owned: bool) -> (r: Result<Reference<'a>, Error>)
        requires
            old(self).wf(),
        ensures
            final(self).wf(),
            final(self).source() == old(self).source(),
            match sp_str(old(self).remaining()) {
                Ok(p) => match r {
                    Ok(rf) => rf.chars() == p.0 && final(self).remaining() == old(
                        self,
                    ).remaining().skip(p.1) && (force_owned ==> rf is Owned) && (!force_owned
                        ==> (rf is Borrowed <==> valid_utf8(
                        old(self).remaining().subrange(2, p.1),
                    ))) && (!force_owned ==> (rf is Copied <==> !valid_utf8(
                        old(self).remaining().subrange(2, p.1),
                    ))),
                    _ => false,
                },
                Err(e) => r matches Err(ae) && ae == e,
            },
    {
        let ghost s = self.remaining();
        let ln = match self.read_be(2) {
            Err(e) => {
                return Err(e);
            },
            Ok(x) => x,
        };
        proof {
            lemma_be_nat_bound(s.subrange(0, 2));
            lemma_pow256_values();
        }
        let n = ln as usize;
        proof {
            assert(self.remaining() == s.skip(2));
            assert(s.len() == self.src@.len() - old(self).pos);
            assert(self.remaining().len() == s.len() - 2);
            assert(self.remaining().len() == self.src@.len() - self.pos);
        }
        if self.src.len() - self.pos < n {
            proof {
                assert(s.len() < 2 + n);
            }
            return Err(Error::Io(IoKind::Eof));
        }
        let sub = slice_subrange(self.src, self.pos, self.pos + n);
        proof {
            assert(sub@ =~= s.subrange(2, 2 + n as int));
        }
        match bytes_as_utf8(sub) {
            Some(st) => {
                self.pos = self.pos + n;
                proof {
                    encode_utf8_decode_utf8(st@);
                    assert(self.remaining() =~= s.skip(2 + n as int));
                }
                if force_owned {
                    Ok(Reference::Owned(st.to_owned()))
                } else {
                    Ok(Reference::Borrowed(st))
                }
            },
            None => {
                match mutf8_convert(sub) {
                    None => Err(Error::Io(IoKind::InvalidUtf8)),
                    Some(out) => {
                        self.pos = self.pos + n;
                        proof {
                            assert(self.remaining() =~= s.skip(2 + n as int));
                        }
                        if force_owned {
                            Ok(Reference::Owned(out))
                        } else {
                            Ok(Reference::Copied(out))
                        }
                    },
                }
            },
        }
    }

    /// The optional top-level header: one tag byte and, unless the tag is
    /// the end marker, a name. The name is read and handed back only so
    /// the caller may discard it.
    pub fn emit_next_header(&mut self) -> (r: Result<(u8, Option<Reference<'a>>), Error>)
        requires
            old(self).wf(),
        ensures
            final(self).wf(),
            final(self).source() == old(self).source(),
            match sp_header(old(self).remaining()) {
                Ok(h) => r matches Ok(p) && p.0 == h.0 && final(self).remaining() == old(
                    self,
                ).remaining().skip(h.2) && (match p.1 {
                    Some(rf) => rf.chars() == h.1,
                    None => h.0 == TAG_END,
                }),
                Err(e) => r matches Err(ae) && ae == e,
            },
    {
        let ghost s = self.remaining();
        let tag = match self.read_u8() {
            Err(e) => {
                return Err(e);
            },
            Ok(t) => t,
        };
        if tag == TAG_END {
            return Ok((tag, None));
        }
        match self.read_bare_string(false) {
            Err(e) => Err(e),
            Ok(rf) => {
                proof {
                    lemma_sp_str_bounds(s.skip(1));
                    match sp_str(s.skip(1)) {
                        Ok(q) => {
                            assert(s.skip(1).skip(q.1) =~= s.skip(1 + q.1));
                        },
                        Err(_) => {},
                    }
                }
                Ok((tag, Some(rf)))
            },
        }
    }

    /// The raw bits of an eight-byte IEEE-754 value.
    pub fn read_bare_double_bits(&mut self) -> (r: Result<u64, Error>)
        requires
            old(self).wf(),
        ensures
            final(self).wf(),
            final(self).source() == old(self).source(),
            match sp_raw(old(self).remaining(), 8) {
                Ok(p) => r matches Ok(x) && x == p.0 as u64 && final(self).remaining() == old(
                    self,
                ).remaining().skip(8),
                Err(e) => r matches Err(ae) && ae == e && *final(self) == *old(self),
            },
    {
        match self.read_be(8) {
            Err(e) => Err(e),
            Ok(raw) => {
                proof {
                    lemma_be_nat_bound(old(self).remaining().subrange(0, 8));
                    lemma_pow256_values();
                }
                Ok(raw)
            },
        }
    }
    /// The unconsumed rest of the source.
    pub fn remainder(&self) -> (r: &'a [u8])
        requires
            self.wf(),
        ensures
            r@ == self.remaining(),
    {
        let r = slice_subrange(self.src, self.pos, self.src.len());
        proof {
            assert(r@ =~= self.remaining());
        }
        r
    }

    /// Decode exactly one value introduced by `tag`, whose tag byte the
    /// caller has already consumed, dispatching on the tag as the format
    /// table prescribes. `depth` is the nesting budget left: each compound
    /// or list level below spends one unit, and a value offered none is
    /// refused before anything is read.
    pub fn decode_value(&mut self, tag: u8, depth: u32) -> (r: Result<Value, Error>)
        requires
            old(self).wf(),
        ensures
            final(self).wf(),
            final(self).source() == old(self).source(),
            depth == 0 || !(TAG_BYTE <= tag && tag <= TAG_LONG_ARRAY) ==> *final(self) == *old(
                self,
            ),
            match sp_value(old(self).remaining(), tag, depth as nat) {
                Ok(p) => r matches Ok(v) && deep(v) == p.0 && final(self).remaining() == old(
                    self,
                ).remaining().skip(p.1),
                Err(e) => r matches Err(ae) && ae == e,
            },
        decreases old(self).remaining().len(), 2int,
    {
        if depth == 0 {
            return Err(Error::DepthExceeded);
        }
        if tag == TAG_BYTE {
            match self.read_bare_byte() {
                Err(e) => Err(e),
                Ok(b) => Ok(Value::Byte(b)),
            }
        } else if tag == TAG_SHORT {
            match self.read_bare_short() {
                Err(e) => Err(e),
                Ok(x) => Ok(Value::Short(x)),
            }
        } else if tag == TAG_INT {
            match self.read_bare_int() {
                Err(e) => Err(e),
                Ok(x) => Ok(Value::Int(x)),
            }
        } else if tag == TAG_LONG {
            match self.read_bare_long() {
                Err(e) => Err(e),
                Ok(x) => Ok(Value::Long(x)),
            }
        } else if tag == TAG_FLOAT {
            match self.read_bare_float_bits() {
                Err(e) => Err(e),
                Ok(x) => Ok(Value::Float(x)),
            }
        } else if tag == TAG_DOUBLE {
            match self.read_bare_double_bits() {
                Err(e) => Err(e),
                Ok(x) => Ok(Value::Double(x)),
            }
        } else if tag == TAG_BYTE_ARRAY {
            self.decode_byte_array(depth)
        } else if tag == TAG_STRING {
            match self.read_bare_string(false) {
                Err(e) => Err(e),
                Ok(rf) => Ok(Value::Text(rf.into_owned())),
            }
        } else if tag == TAG_LIST {
            self.decode_list(depth)
        } else if tag == TAG_COMPOUND {
            match self.decode_entries(depth - 1) {
                Err(e) => Err(e),
                Ok(es) => Ok(Value::Compound(es)),
            }
        } else if tag == TAG_INT_ARRAY {
            self.decode_int_array(depth)
        } else if tag == TAG_LONG_ARRAY {
            self.decode_long_array(depth)
        } else {
            Err(Error::InvalidTypeId(tag))
        }
    }

    /// Decode entries up to the end marker, through the entry protocol:
    /// tag, then key, then value, in exactly that order.
    fn decode_entries(&mut self, depth: u32) -> (r: Result<Vec<(String, Value)>, Error>)
        requires
            old(self).wf(),
        ensures
            final(self).wf(),
            final(self).source() == old(self).source(),
            match sp_entries(old(self).remaining(), depth as nat) {
                Ok(p) => r matches Ok(es) && deep_entries(es@) == p.0 && final(self).remaining()
                    == old(self).remaining().skip(p.1),
                Err(e) => r matches Err(ae) && ae == e,
            },
        decreases old(self).remaining().len(), 1int,
    {
        let ghost orig = self.remaining();
        let ghost dd = depth as nat;
        let mut out: Vec<(String, Value)> = Vec::new();
        let mut md = MapDecoder::new();
        let ghost mut used: int = 0;
        proof {
            assert(orig.skip(0) =~= orig);
            match sp_entries(orig, dd) {
                Ok(p) => {
                    assert(Seq::<(Seq<char>, ValueSpec)>::empty() + p.0 =~= p.0);
                },
                Err(_) => {},
            }
        }
        loop
            invariant
                self.wf(),
                self.source() == old(self).source(),
                dd == depth as nat,
                0 <= used <= orig.len(),
                orig == old(self).remaining(),
                self.remaining() == orig.skip(used),
                sp_entries(orig, dd) == step_entries(deep_entries(out@), used, sp_entries(
                    self.remaining(),
                    dd,
                )),
            decreases self.remaining().len(),
        {
            let ghost cur = self.remaining();
            let key = match md.next_key(self) {
                Err(e) => {
                    return Err(e);
                },
                Ok(o) => o,
            };
            match key {
                None => {
                    proof {
                        assert(cur[0] == TAG_END);
                        assert(sp_entries(cur, dd) == Ok::<_, Error>(
                            (Seq::<(Seq<char>, ValueSpec)>::empty(), 1int),
                        ));
                        match sp_entries(orig, dd) {
                            Ok(p) => {
                                assert(deep_entries(out@) + Seq::<(Seq<char>, ValueSpec)>::empty()
                                    =~= deep_entries(out@));
                                assert(orig.skip(used).skip(1) =~= orig.skip(used + 1));
                            },
                            Err(_) => {
                                assert(false);
                            },
                        }
                    }
                    return Ok(out);
                },
                Some(k) => {
                    let ghost t = cur[0];
                    let ghost kq = match sp_str(cur.skip(1)) {
                        Ok(kq) => kq,
                        Err(_) => arbitrary(),
                    };
                    proof {
                        lemma_sp_str_bounds(cur.skip(1));
                    }
                    let v = match md.next_value(self, depth) {
                        Err(e) => {
                            proof {
                                assert(sp_entries(cur, dd) is Err);
                            }
                            return Err(e);
                        },
                        Ok(v) => v,
                    };
                    proof {
                        lemma_sp_value_bounds(cur.skip(1 + kq.1), t, dd);
                    }
                    let ghost vq = match sp_value(cur.skip(1 + kq.1), t, dd) {
                        Ok(vq) => vq,
                        Err(_) => arbitrary(),
                    };
                    let ghost prev = out@;
                    out.push((k, v));
                    proof {
                        let m = 1 + kq.1 + vq.1;
                        lemma_deep_entries_push(prev, k, v);
                        assert(cur.skip(1 + kq.1).skip(vq.1) =~= cur.skip(m));
                        assert(orig.skip(used).skip(m) =~= orig.skip(used + m));
                        match sp_entries(cur.skip(m), dd) {
                            Ok(rest) => {
                                assert(deep_entries(prev) + (seq![(kq.0, vq.0)] + rest.0)
                                    =~= deep_entries(prev).push((kq.0, vq.0)) + rest.0);
                                assert(deep_entries(out@) == deep_entries(prev).push(
                                    (k@, deep(v)),
                                ));
                            },
                            Err(_) => {},
                        }
                        used = used + m;
                    }
                },
            }
        }
    }

    /// Decode a list payload: the shared element tag, the count, then
    /// that many elements through the element protocol.
    fn decode_list(&mut self, depth: u32) -> (r: Result<Value, Error>)
        requires
            old(self).wf(),
            depth >= 1,
        ensures
            final(self).wf(),
            final(self).source() == old(self).source(),
            match sp_list(old(self).remaining(), depth as nat) {
                Ok(p) => r matches Ok(v) && deep(v) == p.0 && final(self).remaining() == old(
                    self,
                ).remaining().skip(p.1),
                Err(e) => r matches Err(ae) && ae == e,
            },
        decreases old(self).remaining().len(), 1int,
    {
        let ghost s = self.remaining();
        let mut sd = match SeqDecoder::list(self) {
            Err(e) => {
                return Err(e);
            },
            Ok(x) => x,
        };
        let ghost t = sd.tag;
        let ghost ln = sd.length as int;
        let ghost dd1 = (depth - 1) as nat;
        if sd.length < 0 {
            let e = self.decode_run(sd.tag, depth - 1);
            return Err(e);
        }
        let mut out: Vec<Value> = Vec::new();
        let ghost mut used: int = 0;
        proof {
            assert(s.skip(5).skip(0) =~= s.skip(5));
            match sp_elems(s.skip(5), t, ln as nat, dd1) {
                Ok(p) => {
                    assert(Seq::<ValueSpec>::empty() + p.0 =~= p.0);
                },
                Err(_) => {},
            }
        }
        loop
            invariant
                self.wf(),
                self.source() == old(self).source(),
                s == old(self).remaining(),
                s.len() >= 5,
                sd.tag == t,
                sd.length as int == ln,
                ln >= 0,
                t == s[0],
                ln == i32_of(be_nat(s.subrange(1, 5))),
                depth >= 1,
                dd1 == (depth - 1) as nat,
                0 <= sd.current <= ln,
                out@.len() == sd.current,
                0 <= used,
                5 + used <= s.len(),
                self.remaining() == s.skip(5 + used),
                sp_elems(s.skip(5), t, ln as nat, dd1) == step_elems(
                    deep_elems(out@),
                    used,
                    sp_elems(self.remaining(), t, (ln - sd.current) as nat, dd1),
                ),
            decreases self.remaining().len(),
        {
            let ghost cur = self.remaining();
            let ghost c = (ln - sd.current) as nat;
            match sd.next_element(self, depth - 1) {
                Err(e) => {
                    return Err(e);
                },
                Ok(None) => {
                    proof {
                        assert(sp_elems(cur, t, 0nat, dd1) == Ok::<_, Error>(
                            (Seq::<ValueSpec>::empty(), 0int),
                        ));
                        match sp_elems(s.skip(5), t, ln as nat, dd1) {
                            Ok(p) => {
                                assert(deep_elems(out@) + Seq::<ValueSpec>::empty() =~= deep_elems(
                                    out@,
                                ));
                            },
                            Err(_) => {
                                assert(false);
                            },
                        }
                    }
                    return Ok(Value::List(sd.tag, out));
                },
                Ok(Some(v)) => {
                    proof {
                        lemma_sp_value_bounds(cur, t, dd1);
                    }
                    let ghost vq = match sp_value(cur, t, dd1) {
                        Ok(vq) => vq,
                        Err(_) => arbitrary(),
                    };
                    let ghost prev = out@;
                    out.push(v);
                    proof {
                        lemma_deep_elems_push(prev, v);
                        assert(cur.skip(vq.1) =~= s.skip(5 + used + vq.1));
                        match sp_elems(cur.skip(vq.1), t, (ln - sd.current) as nat, dd1) {
                            Ok(rest) => {
                                assert(deep_elems(prev) + (seq![vq.0] + rest.0) =~= deep_elems(
                                    prev,
                                ).push(vq.0) + rest.0);
                            },
                            Err(_) => {},
                        }
                        used = used + vq.1;
                    }
                },
            }
        }
    }

    /// Decode a byte-array payload: a count, then that many signed bytes.
    fn decode_byte_array(&mut self, depth: u32) -> (r: Result<Value, Error>)
        requires
            old(self).wf(),
            depth >= 1,
        ensures
            final(self).wf(),
            final(self).source() == old(self).source(),
            match sp_byte_array(old(self).remaining(), depth as nat) {
                Ok(p) => r matches Ok(v) && deep(v) == p.0 && final(self).remaining() == old(
                    self,
                ).remaining().skip(p.1),
                Err(e) => r matches Err(ae) && ae == e,
            },
        decreases old(self).remaining().len(), 1int,
    {
        let ghost s = self.remaining();
        let mut sd = match SeqDecoder::byte_array(self) {
            Err(e) => {
                return Err(e);
            },
            Ok(x) => x,
        };
        let ghost ln = sd.length as int;
        if sd.length < 0 {
            let e = self.decode_run(TAG_BYTE, depth);
            return Err(e);
        }
        let mut out: Vec<i8> = Vec::new();
        loop
            invariant
                self.wf(),
                self.source() == old(self).source(),
                s == old(self).remaining(),
                s.len() >= 4,
                sd.tag == TAG_BYTE,
                sd.length as int == ln,
                ln >= 0,
                depth >= 1,
                ln == i32_of(be_nat(s.subrange(0, 4))),
                0 <= sd.current <= ln,
                out@.len() == sd.current,
                4 + sd.current <= s.len(),
                self.remaining() == s.skip(4 + sd.current),
                forall|j: int| 0 <= j < sd.current ==> out@[j] == i8_of(s[4 + j]),
            decreases ln - sd.current,
        {
            let ghost cur = self.remaining();
            match sd.next_element(self, depth) {
                Err(e) => {
                    proof {
                        assert(cur.len() == 0);
                        assert(s.len() < 4 + ln);
                    }
                    return Err(e);
                },
                Ok(None) => {
                    proof {
                        assert(out@ =~= Seq::new(ln as nat, |i: int| i8_of(s[4 + i])));
                    }
                    return Ok(Value::ByteArray(out));
                },
                Ok(Some(v)) => {
                    match v {
                        Value::Byte(b) => {
                            out.push(b);
                            proof {
                                assert(cur[0] == s[4 + (sd.current - 1)]);
                                assert(cur.skip(1) =~= s.skip(4 + sd.current));
                            }
                        },
                        _ => {
                            proof {
                                assert(false);
                            }
                            return Err(Error::Io(IoKind::Eof));
                        },
                    }
                },
            }
        }
    }

    /// Decode an int-array payload: a count, then that many four-byte
    /// integers.
    fn decode_int_array(&mut self, depth: u32) -> (r: Result<Value, Error>)
        requires
            old(self).wf(),
            depth >= 1,
        ensures
            final(self).wf(),
            final(self).source() == old(self).source(),
            match sp_int_array(old(self).remaining(), depth as nat) {
                Ok(p) => r matches Ok(v) && deep(v) == p.0 && final(self).remaining() == old(
                    self,
                ).remaining().skip(p.1),
                Err(e) => r matches Err(ae) && ae == e,
            },
        decreases old(self).remaining().len(), 1int,
    {
        let ghost s = self.remaining();
        let mut sd = match SeqDecoder::int_array(self) {
            Err(e) => {
                return Err(e);
            },
            Ok(x) => x,
        };
        let ghost ln = sd.length as int;
        if sd.length < 0 {
            let e = self.decode_run(TAG_INT, depth);
            return Err(e);
        }
        let mut out: Vec<i32> = Vec::new();
        loop
            invariant
                self.wf(),
                self.source() == old(self).source(),
                s == old(self).remaining(),
                s.len() >= 4,
                sd.tag == TAG_INT,
                sd.length as int == ln,
                ln >= 0,
                depth >= 1,
                ln == i32_of(be_nat(s.subrange(0, 4))),
                0 <= sd.current <= ln,
                out@.len() == sd.current,
                4 + 4 * sd.current <= s.len(),
                self.remaining() == s.skip(4 + 4 * sd.current),
                forall|j: int|
                    0 <= j < sd.current ==> out@[j] == i32_of(
                        be_nat(s.subrange(4 + 4 * j, 8 + 4 * j)),
                    ),
            decreases ln - sd.current,
        {
            let ghost cur = self.remaining();
            match sd.next_element(self, depth) {
                Err(e) => {
                    proof {
                        assert(cur.len() < 4);
                        assert(s.len() < 4 + 4 * ln);
                    }
                    return Err(e);
                },
                Ok(None) => {
                    proof {
                        assert(out@ =~= Seq::new(
                            ln as nat,
                            |i: int| i32_of(be_nat(s.subrange(4 + 4 * i, 8 + 4 * i))),
                        ));
                    }
                    return Ok(Value::IntArray(out));
                },
                Ok(Some(v)) => {
                    match v {
                        Value::Int(x) => {
                            out.push(x);
                            proof {
                                let j = sd.current - 1;
                                assert(cur.subrange(0, 4) =~= s.subrange(4 + 4 * j, 8 + 4 * j));
                                assert(cur.skip(4) =~= s.skip(4 + 4 * sd.current));
                            }
                        },
                        _ => {
                            proof {
                                assert(false);
                            }
                            return Err(Error::Io(IoKind::Eof));
                        },
                    }
                },
            }
        }
    }

    /// Decode a long-array payload: a count, then that many eight-byte
    /// integers.
    fn decode_long_array(&mut self, depth: u32) -> (r: Result<Value, Error>)
        requires
            old(self).wf(),
            depth >= 1,
        ensures
            final(self).wf(),
            final(self).source() == old(self).source(),
            match sp_long_array(old(self).remaining(), depth as nat) {
                Ok(p) => r matches Ok(v) && deep(v) == p.0 && final(self).remaining() == old(
                    self,
                ).remaining().skip(p.1),
                Err(e) => r matches Err(ae) && ae == e,
            },
        decreases old(self).remaining().len(), 1int,
    {
        let ghost s = self.remaining();
        let mut sd = match SeqDecoder::long_array(self) {
            Err(e) => {
                return Err(e);
            },
            Ok(x) => x,
        };
        let ghost ln = sd.length as int;
        if sd.length < 0 {
            let e = self.decode_run(TAG_LONG, depth);
            return Err(e);
        }
        let mut out: Vec<i64> = Vec::new();
        loop
            invariant
                self.wf(),
                self.source() == old(self).source(),
                s == old(self).remaining(),
                s.len() >= 4,
                sd.tag == TAG_LONG,
                sd.length as int == ln,
                ln >= 0,
                depth >= 1,
                ln == i32_of(be_nat(s.subrange(0, 4))),
                0 <= sd.current <= ln,
                out@.len() == sd.current,
                4 + 8 * sd.current <= s.len(),
                self.remaining() == s.skip(4 + 8 * sd.current),
                forall|j: int|
                    0 <= j < sd.current ==> out@[j] == i64_of(
                        be_nat(s.subrange(4 + 8 * j, 12 + 8 * j)),
                    ),
            decreases ln - sd.current,
        {
            let ghost cur = self.remaining();
            match sd.next_element(self, depth) {
                Err(e) => {
                    proof {
                        assert(cur.len() < 8);
                        assert(s.len() < 4 + 8 * ln);
                    }
                    return Err(e);
                },
                Ok(None) => {
                    proof {
                        assert(out@ =~= Seq::new(
                            ln as nat,
                            |i: int| i64_of(be_nat(s.subrange(4 + 8 * i, 12 + 8 * i))),
                        ));
                    }
                    return Ok(Value::LongArray(out));
                },
                Ok(Some(v)) => {
                    match v {
                        Value::Long(x) => {
                            out.push(x);
                            proof {
                                let j = sd.current - 1;
                                assert(cur.subrange(0, 8) =~= s.subrange(4 + 8 * j, 12 + 8 * j));
                                assert(cur.skip(8) =~= s.skip(4 + 8 * sd.current));
                            }
                        },
                        _ => {
                            proof {
                                assert(false);
                            }
                            return Err(Error::Io(IoKind::Eof));
                        },
                    }
                },
            }
        }
    }

    /// A narrowly-typed boolean request: the wire tag must be Byte, and
    /// the byte must be 0 or 1. A mismatched tag consumes nothing beyond
    /// the tag the caller already read.
    pub fn decode_bool(&mut self, tag: u8) -> (r: Result<bool, Error>)
        requires
            old(self).wf(),
        ensures
            final(self).wf(),
            final(self).source() == old(self).source(),
            tag != TAG_BYTE ==> *final(self) == *old(self),
            match sp_bool(old(self).remaining(), tag) {
                Ok(p) => r matches Ok(b) && b == p.0 && final(self).remaining() == old(
                    self,
                ).remaining().skip(p.1),
                Err(e) => r matches Err(ae) && ae == e && (match e {
                    // the rejected byte is the one byte consumed
                    Error::NonBooleanByte(_) => final(self).remaining() == old(
                        self,
                    ).remaining().skip(1),
                    _ => *final(self) == *old(self),
                }),
            },
    {
        if tag != TAG_BYTE {
            return Err(Error::TagMismatch(tag, TAG_BYTE));
        }
        match self.read_u8() {
            Err(e) => Err(e),
            Ok(b) => {
                if b == 0 {
                    Ok(false)
                } else if b == 1 {
                    Ok(true)
                } else if b < 0x80 {
                    Err(Error::NonBooleanByte(b as i8))
                } else {
                    Err(Error::NonBooleanByte(((b as i16) - 0x100) as i8))
                }
            },
        }
    }

    /// A narrowly-typed string request that demands an unconditionally
    /// owned result, trading a possible copy for independence from the
    /// source's lifetime.
    pub fn decode_string(&mut self, tag: u8) -> (r: Result<String, Error>)
        requires
            old(self).wf(),
        ensures
            final(self).wf(),
            final(self).source() == old(self).source(),
            tag != TAG_STRING ==> *final(self) == *old(self),
            match sp_string(old(self).remaining(), tag) {
                Ok(p) => r matches Ok(st) && st@ == p.0 && final(self).remaining() == old(
                    self,
                ).remaining().skip(p.1),
                Err(e) => r matches Err(ae) && ae == e,
            },
    {
        if tag != TAG_STRING {
            return Err(Error::TagMismatch(tag, TAG_STRING));
        }
        match self.read_bare_string(true) {
            Err(e) => Err(e),
            Ok(rf) => Ok(rf.into_owned()),
        }
    }

    /// A borrow-friendly string request: over an in-memory slice the
    /// result is a zero-copy view into the source whenever the payload is
    /// plain UTF-8, and a converted copy where the modified encoding had
    /// to be unescaped.
    pub fn decode_str(&mut self, tag: u8) -> (r: Result<Reference<'a>, Error>)
        requires
            old(self).wf(),
        ensures
            final(self).wf(),
            final(self).source() == old(self).source(),
            tag != TAG_STRING ==> *final(self) == *old(self),
            match sp_string(old(self).remaining(), tag) {
                Ok(p) => match r {
                    Ok(rf) => rf.chars() == p.0 && final(self).remaining() == old(
                        self,
                    ).remaining().skip(p.1) && (rf is Borrowed <==> valid_utf8(
                        old(self).remaining().subrange(2, p.1),
                    )) && (rf is Copied <==> !valid_utf8(
                        old(self).remaining().subrange(2, p.1),
                    )),
                    _ => false,
                },
                Err(e) => r matches Err(ae) && ae == e,
            },
    {
        if tag != TAG_STRING {
            return Err(Error::TagMismatch(tag, TAG_STRING));
        }
        self.read_bare_string(false)
    }

    /// Decode elements until one fails; the declared count was negative,
    /// so exhaustion by count never happens and the first failure is the
    /// outcome.
    fn decode_run(&mut self, tag: u8, depth: u32) -> (r: Error)
        requires
            old(self).wf(),
        ensures
            final(self).wf(),
            final(self).source() == old(self).source(),
            r == sp_run(old(self).remaining(), tag, depth as nat),
        decreases old(self).remaining().len(), 3int,
    {
        let ghost orig = self.remaining();
        let ghost dd = depth as nat;
        loop
            invariant
                self.wf(),
                self.source() == old(self).source(),
                dd == depth as nat,
                self.remaining().len() <= orig.len(),
                orig == old(self).remaining(),
                sp_run(orig, tag, dd) == sp_run(self.remaining(), tag, dd),
            decreases self.remaining().len(),
        {
            let ghost cur = self.remaining();
            match self.decode_value(tag, depth) {
                Err(e) => {
                    return e;
                },
                Ok(_) => {
                    proof {
                        lemma_sp_value_bounds(cur, tag, dd);
                    }
                },
            }
        }
    }
}

/// Prefix entries already decoded onto an entry-parse outcome.
pub open spec fn step_entries(
    pre: Seq<(Seq<char>, ValueSpec)>,
    used: int,
    r: Result<(Seq<(Seq<char>, ValueSpec)>, int), Error>,
) -> Result<(Seq<(Seq<char>, ValueSpec)>, int), Error> {
    match r {
        Ok(p) => Ok((pre + p.0, used + p.1)),
        Err(e) => Err(e),
    }
}

/// Prefix elements already decoded onto an element-parse outcome.
pub open spec fn step_elems(
    pre: Seq<ValueSpec>,
    used: int,
    r: Result<(Seq<ValueSpec>, int), Error>,
) -> Result<(Seq<ValueSpec>, int), Error> {
    match r {
        Ok(p) => Ok((pre + p.0, used + p.1)),
        Err(e) => Err(e),
    }
}

/// Drives the entry protocol of a compound: a tag byte that either ends
/// the compound or introduces a key and a value of that tag.
pub struct MapDecoder {
    tag: Option<u8>,
}

impl MapDecoder {
    /// The tag remembered from the last key read, which governs the next
    /// value.
    pub closed spec fn pending(&self) -> Option<u8> {
        self.tag
    }

    /// A fresh entry decoder with no value pending.
    pub fn new() -> (r: Self)
        ensures
            r.pending() is None,
    {
        MapDecoder { tag: None }
    }

    /// Read one entry's tag byte and, unless it was the end marker, the
    /// entry's key. The tag byte belongs to the value that follows; the
    /// key is always read as a string, whatever the tag byte held.
    pub fn next_key<'a>(&mut self, de: &mut Decoder<'a>) -> (r: Result<Option<String>, Error>)
        requires
            old(de).wf(),
        ensures
            final(de).wf(),
            final(de).source() == old(de).source(),
            match sp_u8(old(de).remaining()) {
                Err(e) => r matches Err(ae) && ae == e && *final(de) == *old(de) && *final(self)
                    == *old(self),
                Ok(t) => {
                    if t.0 == TAG_END {
                        r matches Ok(o) && o is None && final(de).remaining() == old(
                            de,
                        ).remaining().skip(1) && *final(self) == *old(self)
                    } else {
                        match sp_str(old(de).remaining().skip(1)) {
                            Err(e) => r matches Err(ae) && ae == e && final(self).pending()
                                == Some(t.0),
                            Ok(k) => match r {
                                Ok(Some(ks)) => ks@ == k.0 && final(self).pending() == Some(t.0)
                                    && final(de).remaining() == old(de).remaining().skip(1 + k.1),
                                _ => false,
                            },
                        }
                    }
                },
            },
    {
        let ghost s = de.remaining();
        let tag = match de.read_u8() {
            Err(e) => {
                return Err(e);
            },
            Ok(t) => t,
        };
        if tag == TAG_END {
            return Ok(None);
        }
        self.tag = Some(tag);
        match de.read_bare_string(false) {
            Err(e) => Err(e),
            Ok(rf) => {
                proof {
                    lemma_sp_str_bounds(s.skip(1));
                    match sp_str(s.skip(1)) {
                        Ok(k) => {
                            assert(s.skip(1).skip(k.1) =~= s.skip(1 + k.1));
                        },
                        Err(_) => {},
                    }
                }
                Ok(Some(rf.into_owned()))
            },
        }
    }

    /// Decode the value whose tag [`Self::next_key`] remembered, under
    /// the given nesting budget.
    pub fn next_value<'a>(&mut self, de: &mut Decoder<'a>, depth: u32) -> (r: Result<Value, Error>)
        requires
            old(de).wf(),
            old(self).pending() is Some,
        ensures
            final(de).wf(),
            final(de).source() == old(de).source(),
            *final(self) == *old(self),
            match old(self).pending() {
                Some(t) => match sp_value(old(de).remaining(), t, depth as nat) {
                    Ok(p) => r matches Ok(v) && deep(v) == p.0 && final(de).remaining() == old(
                        de,
                    ).remaining().skip(p.1),
                    Err(e) => r matches Err(ae) && ae == e,
                },
                None => true,
            },
        decreases old(de).remaining().len(), 3int,
    {
        match self.tag {
            Some(t) => de.decode_value(t, depth),
            None => {
                proof {
                    assert(false);
                }
                Err(Error::Io(IoKind::Eof))
            },
        }
    }
}

/// Drives the element protocol shared by lists and the three typed
/// arrays: remaining elements are `length - current`, each successful
/// element advances `current`, and `current == length` means done.
pub struct SeqDecoder {
    /// The tag every element is decoded with.
    pub tag: u8,
    /// The declared element count.
    pub length: i32,
    /// How many elements have been decoded so far.
    pub current: i32,
}

impl SeqDecoder {
    /// Begin a list: read the shared element tag, then the count.
    pub fn list<'a>(de: &mut Decoder<'a>) -> (r: Result<Self, Error>)
        requires
            old(de).wf(),
        ensures
            final(de).wf(),
            final(de).source() == old(de).source(),
            if old(de).remaining().len() >= 5 {
                r matches Ok(sd) && sd.tag == old(de).remaining()[0] && sd.length == i32_of(
                    be_nat(old(de).remaining().subrange(1, 5)),
                ) && sd.current == 0 && final(de).remaining() == old(de).remaining().skip(5)
            } else {
                r matches Err(ae) && ae == Error::Io(IoKind::Eof)
            },
    {
        let ghost s = de.remaining();
        let tag = match de.read_u8() {
            Err(e) => {
                return Err(e);
            },
            Ok(t) => t,
        };
        match de.read_bare_int() {
            Err(e) => Err(e),
            Ok(length) => {
                proof {
                    assert(s.skip(1).subrange(0, 4) =~= s.subrange(1, 5));
                    assert(s.skip(1).skip(4) =~= s.skip(5));
                }
                Ok(SeqDecoder { tag: tag as u8, length, current: 0 })
            },
        }
    }

    /// Begin a byte array: only a count; the element tag is implicit.
    pub fn byte_array<'a>(de: &mut Decoder<'a>) -> (r: Result<Self, Error>)
        requires
            old(de).wf(),
        ensures
            final(de).wf(),
            final(de).source() == old(de).source(),
            if old(de).remaining().len() >= 4 {
                r matches Ok(sd) && sd.tag == TAG_BYTE && sd.length == i32_of(
                    be_nat(old(de).remaining().subrange(0, 4)),
                ) && sd.current == 0 && final(de).remaining() == old(de).remaining().skip(4)
            } else {
                r matches Err(ae) && ae == Error::Io(IoKind::Eof)
            },
    {
        match de.read_bare_int() {
            Err(e) => Err(e),
            Ok(length) => Ok(SeqDecoder { tag: TAG_BYTE, length, current: 0 }),
        }
    }

    /// Begin an int array: only a count; the element tag is implicit.
    pub fn int_array<'a>(de: &mut Decoder<'a>) -> (r: Result<Self, Error>)
        requires
            old(de).wf(),
        ensures
            final(de).wf(),
            final(de).source() == old(de).source(),
            if old(de).remaining().len() >= 4 {
                r matches Ok(sd) && sd.tag == TAG_INT && sd.length == i32_of(
                    be_nat(old(de).remaining().subrange(0, 4)),
                ) && sd.current == 0 && final(de).remaining() == old(de).remaining().skip(4)
            } else {
                r matches Err(ae) && ae == Error::Io(IoKind::Eof)
            },
    {
        match de.read_bare_int() {
            Err(e) => Err(e),
            Ok(length) => Ok(SeqDecoder { tag: TAG_INT, length, current: 0 }),
        }
    }

    /// Begin a long array: only a count; the element tag is implicit.
    pub fn long_array<'a>(de: &mut Decoder<'a>) -> (r: Result<Self, Error>)
        requires
            old(de).wf(),
        ensures
            final(de).wf(),
            final(de).source() == old(de).source(),
            if old(de).remaining().len() >= 4 {
                r matches Ok(sd) && sd.tag == TAG_LONG && sd.length == i32_of(
                    be_nat(old(de).remaining().subrange(0, 4)),
                ) && sd.current == 0 && final(de).remaining() == old(de).remaining().skip(4)
            } else {
                r matches Err(ae) && ae == Error::Io(IoKind::Eof)
            },
    {
        match de.read_bare_int() {
            Err(e) => Err(e),
            Ok(length) => Ok(SeqDecoder { tag: TAG_LONG, length, current: 0 }),
        }
    }

    /// The declared count, which is known before any element is decoded.
    /// A negative count surfaces as its wrapped cast, and is only
    /// meaningful to callers that already know the count is non-negative.
    pub fn size_hint(&self) -> (r: Option<usize>)
        ensures
            self.length >= 0 ==> r == Some(self.length as usize),
            self.length < 0 ==> (r matches Some(n) && n as int == self.length + usize::MAX + 1),
    {
        if self.length >= 0 {
            Some(self.length as usize)
        } else {
            let neg = (-(self.length as i64)) as usize;
            Some(usize::MAX - neg + 1)
        }
    }

    /// Decode the next element, or report that the declared count is
    /// exhausted. A negative count never equals the running index, so
    /// elements are then decoded until one fails.
    pub fn next_element<'a>(&mut self, de: &mut Decoder<'a>, depth: u32) -> (r: Result<
        Option<Value>,
        Error,
    >)
        requires
            old(de).wf(),
            0 <= old(self).current,
            old(self).length >= 0 ==> old(self).current <= old(self).length,
        ensures
            final(de).wf(),
            final(de).source() == old(de).source(),
            final(self).tag == old(self).tag,
            final(self).length == old(self).length,
            if old(self).current == old(self).length {
                r matches Ok(o) && o is None && *final(de) == *old(de) && *final(self) == *old(
                    self,
                )
            } else {
                match sp_value(old(de).remaining(), old(self).tag, depth as nat) {
                    Ok(p) => match r {
                        Ok(Some(v)) => deep(v) == p.0 && final(de).remaining() == old(
                            de,
                        ).remaining().skip(p.1) && final(self).current == (
                        if old(self).current < old(self).length {
                            old(self).current + 1
                        } else {
                            old(self).current as int
                        }),
                        _ => false,
                    },
                    Err(e) => r matches Err(ae) && ae == e && *final(self) == *old(self),
                }
            },
        decreases old(de).remaining().len(), 3int,
    {
        if self.current == self.length {
            return Ok(None);
        }
        match de.decode_value(self.tag, depth) {
            Err(e) => Err(e),
            Ok(v) => {
                if self.current < self.length {
                    self.current = self.current + 1;
                }
                Ok(Some(v))
            },
        }
    }
}

/// A decoded string, with its ownership made explicit: a zero-copy view
/// into the source; a copy that had to be made because the wire bytes
/// were in the modified encoding and were converted; or an allocation the
/// caller demanded, independent of the source's lifetime either way.
pub enum Reference<'a> {
    Borrowed(&'a str),
    Copied(String),
    Owned(String),
}

impl<'a> Reference<'a> {
    /// The characters of the string, however it is held.
    pub open spec fn chars(&self) -> Seq<char> {
        match self {
            Reference::Borrowed(s) => s@,
            Reference::Copied(s) => s@,
            Reference::Owned(s) => s@,
        }
    }

    /// Give up the view and hand the string over as an owned value.
    pub fn into_owned(self) -> (r: String)
        ensures
            r@ == self.chars(),
    {
        match self {
            Reference::Borrowed(s) => s.to_owned(),
            Reference::Copied(s) => s,
            Reference::Owned(s) => s,
        }
    }
}

/// Relies on `core::str::from_utf8`: it succeeds exactly on input that is
/// valid UTF-8, and the `str` it returns views the given bytes.
#[verifier::external_body]
fn bytes_as_utf8<'b>(b: &'b [u8]) -> (r: Option<&'b str>)
    ensures
        r is Some <==> valid_utf8(b@),
        r matches Some(s) ==> s.spec_bytes() == b@,
{
    core::str::from_utf8(b).ok()
}

/// Relies on `char::from_u32`: it succeeds exactly on Unicode scalar
/// values and returns the character with that value.
pub assume_specification[ char::from_u32 ](v: u32) -> (r: Option<char>)
    ensures
        r is Some <==> is_scalar(v),
        r matches Some(c) ==> c as u32 == v,
;

/// Relies on `String::push`: it appends the given character.
pub assume_specification[ String::push ](s: &mut String, ch: char)
    ensures
        final(s)@ == old(s)@.push(ch),
;

/// Convert a payload in the tolerated modified encoding into the string
/// it denotes, or report that some part of it is malformed.
#[verifier::rlimit(100)]
#[verifier::spinoff_prover]
fn mutf8_convert(b: &[u8]) -> (r: Option<String>)
    ensures
        match mutf8_chars(b@) {
            Some(cs) => r matches Some(st) && st@ == cs,
            None => r is None,
        },
{
    let mut out = String::new();
    let mut i: usize = 0;
    let bl = b.len();
    proof {
        assert(b@.skip(0) =~= b@);
        match mutf8_chars(b@) {
            Some(cs) => {
                assert(Seq::<char>::empty() + cs =~= cs);
            },
            None => {},
        }
    }
    while i < bl
        invariant
            bl == b@.len(),
            i <= b@.len() <= usize::MAX,
            match mutf8_chars(b@.skip(i as int)) {
                Some(rest) => mutf8_chars(b@) == Some(out@ + rest),
                None => mutf8_chars(b@) is None,
            },
        decreases b@.len() - i,
    {
        let ghost cur = b@.skip(i as int);
        let rem = b.len() - i;
        let b0 = *slice_index_get(b, i);
        let b1 = if rem >= 2 {
            *slice_index_get(b, i + 1)
        } else {
            0
        };
        let b2 = if rem >= 3 {
            *slice_index_get(b, i + 2)
        } else {
            0
        };
        let b3 = if rem >= 4 {
            *slice_index_get(b, i + 3)
        } else {
            0
        };
        let b4 = if rem >= 5 {
            *slice_index_get(b, i + 4)
        } else {
            0
        };
        let b5 = if rem >= 6 {
            *slice_index_get(b, i + 5)
        } else {
            0
        };
        proof {
            assert(cur.len() == rem);
            assert(cur[0] == b0);
            if rem >= 2 {
                assert(cur[1] == b1);
            }
            if rem >= 3 {
                assert(cur[2] == b2);
            }
            if rem >= 4 {
                assert(cur[3] == b3);
            }
            if rem >= 5 {
                assert(cur[4] == b4);
            }
            if rem >= 6 {
                assert(cur[5] == b5);
            }
        }
        let step: Option<(u32, usize)> = if b0 < 0x80 {
            Some((b0 as u32, 1))
        } else if rem >= 2 && b0 == 0xc0 && b1 == 0x80 {
            Some((0, 2))
        } else if rem >= 2 && 0xc2 <= b0 && b0 <= 0xdf && 0x80 <= b1 && b1 <= 0xbf {
            Some((((b0 - 0xc0) as u32) * 0x40 + ((b1 - 0x80) as u32), 2))
        } else if rem >= 6 && b0 == 0xed && 0xa0 <= b1 && b1 <= 0xaf && 0x80 <= b2 && b2 <= 0xbf
            && b3 == 0xed && 0xb0 <= b4 && b4 <= 0xbf && 0x80 <= b5 && b5 <= 0xbf {
            Some(
                (
                    0x10000 + (((b1 - 0xa0) as u32) * 0x40 + ((b2 - 0x80) as u32)) * 0x400 + ((b4
                        - 0xb0) as u32) * 0x40 + ((b5 - 0x80) as u32),
                    6,
                ),
            )
        } else if rem >= 3 && 0xe0 <= b0 && b0 <= 0xef && 0x80 <= b1 && b1 <= 0xbf && 0x80 <= b2
            && b2 <= 0xbf {
            let v = ((b0 - 0xe0) as u32) * 0x1000 + ((b1 - 0x80) as u32) * 0x40 + ((b2
                - 0x80) as u32);
            if 0x800 <= v && !(0xd800 <= v && v <= 0xdfff) {
                Some((v, 3))
            } else {
                None
            }
        } else if rem >= 4 && 0xf0 <= b0 && b0 <= 0xf4 && 0x80 <= b1 && b1 <= 0xbf && 0x80 <= b2
            && b2 <= 0xbf && 0x80 <= b3 && b3 <= 0xbf {
            let v = ((b0 - 0xf0) as u32) * 0x40000 + ((b1 - 0x80) as u32) * 0x1000 + ((b2
                - 0x80) as u32) * 0x40 + ((b3 - 0x80) as u32);
            if 0x10000 <= v && v <= 0x10ffff {
                Some((v, 4))
            } else {
                None
            }
        } else {
            None
        };
        match step {
            None => {
                proof {
                    assert(mutf8_first(cur) is None);
                }
                return None;
            },
            Some(pair) => {
                let cp = pair.0;
                let n = pair.1;
                proof {
                    assert(mutf8_first(cur) matches Some(q) && q.0 == (cp as char) && q.1
                        == n as int);
                    assert(is_scalar(cp));
                }
                match char::from_u32(cp) {
                    None => {
                        proof {
                            assert(false);
                        }
                        return None;
                    },
                    Some(c) => {
                        let ghost prev = out@;
                        out.push(c);
                        i = i + n;
                        proof {
                            char_u32_cast(c, cp);
                            assert(cur.skip(n as int) =~= b@.skip(i as int));
                            match mutf8_chars(b@.skip(i as int)) {
                                Some(rest) => {
                                    assert(prev + (seq![c] + rest) =~= prev.push(c) + rest);
                                },
                                None => {},
                            }
                        }
                    },
                }
            },
        }
    }
    proof {
        assert(b@.skip(i as int) =~= Seq::<u8>::empty());
        match mutf8_chars(b@) {
            Some(cs) => {
                assert(out@ + Seq::<char>::empty() =~= out@);
            },
            None => {
                assert(false);
            },
        }
    }
    Some(out)
}

/// Decode one document from an in-memory slice: an optional header whose
/// tag must announce a compound, then the compound itself. The unconsumed
/// rest of the slice is handed back beside the value. Nesting deeper than
/// [`MAX_DEPTH`] is refused with [`Error::DepthExceeded`] instead of
/// risking the call stack.
pub fn from_slice<'a>(src: &'a [u8]) -> (r: Result<(&'a [u8], Value), Error>)
    ensures
        match sp_root(src@) {
            Ok(p) => r matches Ok(pair) && deep(pair.1) == p.0 && pair.0@ == src@.skip(p.1),
            Err(e) => r matches Err(ae) && ae == e,
        },
{
    let mut de = Decoder::new(src);
    let header = match de.emit_next_header() {
        Err(e) => {
            return Err(e);
        },
        Ok(h) => h,
    };
    proof {
        lemma_sp_str_bounds(src@.skip(1));
    }
    if header.0 != TAG_COMPOUND {
        return Err(Error::NoRootCompound);
    }
    let ghost hn = match sp_header(src@) {
        Ok(h) => h.2,
        Err(_) => arbitrary(),
    };
    match de.decode_entries(MAX_DEPTH - 1) {
        Err(e) => Err(e),
        Ok(es) => {
            proof {
                lemma_sp_entries_bounds(src@.skip(hn), (MAX_DEPTH - 1) as nat);
                match sp_entries(src@.skip(hn), (MAX_DEPTH - 1) as nat) {
                    Ok(p) => {
                        assert(src@.skip(hn).skip(p.1) =~= src@.skip(hn + p.1));
                    },
                    Err(_) => {},
                }
            }
            let rest = de.remainder();
            Ok((rest, Value::Compound(es)))
        },
    }
}

/// The result of inflating a gzip container, which depends on the input
/// bytes alone; nothing is assumed of it beyond its existence.
pub uninterp spec fn gunzip_of(b: Seq<u8>) -> Option<Seq<u8>>;

/// The result of inflating a zlib container, which depends on the input
/// bytes alone; nothing is assumed of it beyond its existence.
pub uninterp spec fn inflate_of(b: Seq<u8>) -> Option<Seq<u8>>;

/// Relies on `flate2::read::GzDecoder` over an in-memory slice: inflating
/// a gzip container is a function of the input bytes alone, and fails on
/// a corrupt or truncated container.
#[verifier::external_body]
fn gunzip(src: &[u8]) -> (r: Result<Vec<u8>, Error>)
    ensures
        match gunzip_of(src@) {
            Some(b) => r matches Ok(v) && v@ == b,
            None => r matches Err(ae) && ae matches Error::Io(_),
        },
{
    let mut out = Vec::new();
    let mut d = flate2::read::GzDecoder::new(src);
    match std::io::Read::read_to_end(&mut d, &mut out) {
        Ok(_) => Ok(out),
        Err(e) => Err(
            if e.kind() == std::io::ErrorKind::UnexpectedEof {
                Error::Io(IoKind::Eof)
            } else {
                Error::Io(IoKind::Corrupt)
            },
        ),
    }
}

/// Relies on `flate2::read::ZlibDecoder` over an in-memory slice:
/// inflating a zlib container is a function of the input bytes alone, and
/// fails on a corrupt or truncated container.
#[verifier::external_body]
fn inflate_zlib(src: &[u8]) -> (r: Result<Vec<u8>, Error>)
    ensures
        match inflate_of(src@) {
            Some(b) => r matches Ok(v) && v@ == b,
            None => r matches Err(ae) && ae matches Error::Io(_),
        },
{
    let mut out = Vec::new();
    let mut d = flate2::read::ZlibDecoder::new(src);
    match std::io::Read::read_to_end(&mut d, &mut out) {
        Ok(_) => Ok(out),
        Err(e) => Err(
            if e.kind() == std::io::ErrorKind::UnexpectedEof {
                Error::Io(IoKind::Eof)
            } else {
                Error::Io(IoKind::Corrupt)
            },
        ),
    }
}

/// Decode one document from a gzip-compressed in-memory slice.
pub fn from_gzip_slice(src: &[u8]) -> (r: Result<Value, Error>)
    ensures
        match gunzip_of(src@) {
            Some(b) => match sp_root(b) {
                Ok(p) => r matches Ok(v) && deep(v) == p.0,
                Err(e) => r matches Err(ae) && ae == e,
            },
            None => r matches Err(ae) && ae matches Error::Io(_),
        },
{
    match gunzip(src) {
        Err(e) => Err(e),
        Ok(bytes) => match from_slice(bytes.as_slice()) {
            Err(e) => Err(e),
            Ok(pair) => Ok(pair.1),
        },
    }
}

/// Decode one document from a zlib-compressed in-memory slice.
pub fn from_zlib_slice(src: &[u8]) -> (r: Result<Value, Error>)
    ensures
        match inflate_of(src@) {
            Some(b) => match sp_root(b) {
                Ok(p) => r matches Ok(v) && deep(v) == p.0,
                Err(e) => r matches Err(ae) && ae == e,
            },
            None => r matches Err(ae) && ae matches Error::Io(_),
        },
{
    match inflate_zlib(src) {
        Err(e) => Err(e),
        Ok(bytes) => match from_slice(bytes.as_slice()) {
            Err(e) => Err(e),
            Ok(pair) => Ok(pair.1),
        },
    }
}

} // verus!
