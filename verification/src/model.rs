//! The byte-level model of the NBT wire format.
//!
//! Everything here is specification: a mathematical value tree
//! ([`ValueSpec`]), a recursive-descent parser over `Seq<u8>` that fixes the
//! meaning of every byte of input (`sp_*`), and an encoder ([`enc_value`])
//! that maps a well-formed tree back to its wire bytes. The executable
//! decoder in [`crate::de`] is proved to return exactly what the parser
//! here says, error for error and byte for byte.

use vstd::prelude::*;
use vstd::utf8::{valid_utf8, decode_utf8, encode_utf8};
use crate::error::{Error, IoKind};

verus! {

broadcast use vstd::seq::axiom_seq_index_decreases, vstd::seq::axiom_seq_subrange_decreases;

/// How deep compound and list nesting may go before a decode is refused
/// with [`Error::DepthExceeded`] instead of risking the call stack.
pub const MAX_DEPTH: u32 = 512;

/// End-of-compound marker.
pub const TAG_END: u8 = 0x00;

/// One signed byte.
pub const TAG_BYTE: u8 = 0x01;

/// Two-byte big-endian signed integer.
pub const TAG_SHORT: u8 = 0x02;

/// Four-byte big-endian signed integer.
pub const TAG_INT: u8 = 0x03;

/// Eight-byte big-endian signed integer.
pub const TAG_LONG: u8 = 0x04;

/// Four-byte IEEE-754 value, handled as its raw bits.
pub const TAG_FLOAT: u8 = 0x05;

/// Eight-byte IEEE-754 value, handled as its raw bits.
pub const TAG_DOUBLE: u8 = 0x06;

/// Four-byte length followed by that many signed bytes.
pub const TAG_BYTE_ARRAY: u8 = 0x07;

/// Two-byte length followed by that many bytes of text: UTF-8, with the
/// modified encoding tolerated.
pub const TAG_STRING: u8 = 0x08;

/// One element tag, a four-byte length, then that many same-typed elements.
pub const TAG_LIST: u8 = 0x09;

/// A sequence of (tag, key, value) triples terminated by [`TAG_END`].
pub const TAG_COMPOUND: u8 = 0x0a;

/// Four-byte length followed by that many four-byte signed integers.
pub const TAG_INT_ARRAY: u8 = 0x0b;

/// Four-byte length followed by that many eight-byte signed integers.
pub const TAG_LONG_ARRAY: u8 = 0x0c;

/// The mathematical value tree of the format. Floating-point payloads are
/// carried as their raw big-endian bits, so that the model stays exact.
pub enum ValueSpec {
    Byte(i8),
    Short(i16),
    Int(i32),
    Long(i64),
    Float(u32),
    Double(u64),
    ByteArray(Seq<i8>),
    Text(Seq<char>),
    List(u8, Seq<ValueSpec>),
    Compound(Seq<(Seq<char>, ValueSpec)>),
    IntArray(Seq<i32>),
    LongArray(Seq<i64>),
}

/// The wire tag that introduces a value of this shape.
pub open spec fn tag_of(v: ValueSpec) -> u8 {
    match v {
        ValueSpec::Byte(_) => TAG_BYTE,
        ValueSpec::Short(_) => TAG_SHORT,
        ValueSpec::Int(_) => TAG_INT,
        ValueSpec::Long(_) => TAG_LONG,
        ValueSpec::Float(_) => TAG_FLOAT,
        ValueSpec::Double(_) => TAG_DOUBLE,
        ValueSpec::ByteArray(_) => TAG_BYTE_ARRAY,
        ValueSpec::Text(_) => TAG_STRING,
        ValueSpec::List(_, _) => TAG_LIST,
        ValueSpec::Compound(_) => TAG_COMPOUND,
        ValueSpec::IntArray(_) => TAG_INT_ARRAY,
        ValueSpec::LongArray(_) => TAG_LONG_ARRAY,
    }
}

// ---------------------------------------------------------------------------
// Big-endian arithmetic
// ---------------------------------------------------------------------------

/// The number a big-endian digit string denotes, base 256.
pub open spec fn be_nat(s: Seq<u8>) -> nat
    decreases s.len(),
{
    if s.len() == 0 {
        0
    } else {
        be_nat(s.drop_last()) * 256 + s.last() as nat
    }
}

/// 256 to the `w`.
pub open spec fn pow256(w: nat) -> nat
    decreases w,
{
    if w == 0 {
        1
    } else {
        256 * pow256((w - 1) as nat)
    }
}

/// The `w`-byte big-endian digit string of `n % pow256(w)`.
pub open spec fn nat_to_be(n: nat, w: nat) -> Seq<u8>
    decreases w,
{
    if w == 0 {
        Seq::empty()
    } else {
        nat_to_be(n / 256, (w - 1) as nat).push((n % 256) as u8)
    }
}

/// Two's-complement readings of unsigned raw values.
pub open spec fn i8_of(b: u8) -> i8 {
    if b < 0x80 {
        b as i8
    } else {
        (b - 0x100) as i8
    }
}

pub open spec fn i16_of(raw: nat) -> i16 {
    if raw < 0x8000 {
        raw as i16
    } else {
        (raw - 0x10000) as i16
    }
}

pub open spec fn i32_of(raw: nat) -> i32 {
    if raw < 0x80000000 {
        raw as i32
    } else {
        (raw - 0x100000000) as i32
    }
}

pub open spec fn i64_of(raw: nat) -> i64 {
    if raw < 0x8000000000000000 {
        raw as i64
    } else {
        (raw - 0x10000000000000000) as i64
    }
}

/// Two's-complement writings back to unsigned raw values.
pub open spec fn u8_of_i8(x: i8) -> u8 {
    if x >= 0 {
        x as u8
    } else {
        (x + 0x100) as u8
    }
}

pub open spec fn nat_of_i16(x: i16) -> nat {
    if x >= 0 {
        x as nat
    } else {
        (x + 0x10000) as nat
    }
}

pub open spec fn nat_of_i32(x: i32) -> nat {
    if x >= 0 {
        x as nat
    } else {
        (x + 0x100000000) as nat
    }
}

pub open spec fn nat_of_i64(x: i64) -> nat {
    if x >= 0 {
        x as nat
    } else {
        (x + 0x10000000000000000) as nat
    }
}

// ---------------------------------------------------------------------------
// The specification parser
// ---------------------------------------------------------------------------
// Each `sp_*` function takes the remaining input and yields either the
// decoded item together with the exact number of bytes it occupies, or the
// error the decoder must report.

/// One raw byte.
pub open spec fn sp_u8(s: Seq<u8>) -> Result<(u8, int), Error> {
    if s.len() >= 1 {
        Ok((s[0], 1))
    } else {
        Err(Error::Io(IoKind::Eof))
    }
}

/// A `w`-byte big-endian unsigned number.
pub open spec fn sp_raw(s: Seq<u8>, w: int) -> Result<(nat, int), Error> {
    if s.len() >= w {
        Ok((be_nat(s.subrange(0, w)), w))
    } else {
        Err(Error::Io(IoKind::Eof))
    }
}

/// A continuation byte of a multi-byte sequence.
pub open spec fn is_cont(b: u8) -> bool {
    0x80 <= b <= 0xbf
}

/// The six payload bits of a continuation byte.
pub open spec fn cont_val(b: u8) -> int {
    b - 0x80
}

/// The first character of a payload in the tolerated modified encoding:
/// standard UTF-8, plus the two-byte form of NUL (0xC0 0x80) and
/// supplementary characters written as a six-byte surrogate pair. Overlong
/// forms, lone surrogates and anything else are refused.
pub open spec fn mutf8_first(bs: Seq<u8>) -> Option<(char, int)>
    recommends
        bs.len() > 0,
{
    let b0 = bs[0];
    if b0 < 0x80 {
        Some(((b0 as u32) as char, 1))
    } else if bs.len() >= 2 && b0 == 0xc0 && bs[1] == 0x80 {
        Some(((0 as u32) as char, 2))
    } else if bs.len() >= 2 && 0xc2 <= b0 && b0 <= 0xdf && is_cont(bs[1]) {
        Some(((((b0 - 0xc0) * 0x40 + cont_val(bs[1])) as u32) as char, 2))
    } else if bs.len() >= 6 && b0 == 0xed && 0xa0 <= bs[1] && bs[1] <= 0xaf && is_cont(bs[2])
        && bs[3] == 0xed && 0xb0 <= bs[4] && bs[4] <= 0xbf && is_cont(bs[5]) {
        Some(
            (
                ((0x10000 + ((bs[1] - 0xa0) * 0x40 + cont_val(bs[2])) * 0x400 + (bs[4] - 0xb0)
                    * 0x40 + cont_val(bs[5])) as u32) as char,
                6,
            ),
        )
    } else if bs.len() >= 3 && 0xe0 <= b0 && b0 <= 0xef && is_cont(bs[1]) && is_cont(bs[2]) {
        let v = (b0 - 0xe0) * 0x1000 + cont_val(bs[1]) * 0x40 + cont_val(bs[2]);
        if 0x800 <= v && !(0xd800 <= v && v <= 0xdfff) {
            Some(((v as u32) as char, 3))
        } else {
            None
        }
    } else if bs.len() >= 4 && 0xf0 <= b0 && b0 <= 0xf4 && is_cont(bs[1]) && is_cont(bs[2])
        && is_cont(bs[3]) {
        let v = (b0 - 0xf0) * 0x40000 + cont_val(bs[1]) * 0x1000 + cont_val(bs[2]) * 0x40
            + cont_val(bs[3]);
        if 0x10000 <= v && v <= 0x10ffff {
            Some(((v as u32) as char, 4))
        } else {
            None
        }
    } else {
        None
    }
}

/// The characters of a whole payload in the tolerated modified encoding,
/// or nothing where any part of it is malformed.
pub open spec fn mutf8_chars(bs: Seq<u8>) -> Option<Seq<char>>
    decreases bs.len(),
{
    if bs.len() == 0 {
        Some(Seq::empty())
    } else {
        match mutf8_first(bs) {
            None => None,
            Some(p) => {
                if p.1 < 1 || p.1 > bs.len() {
                    None
                } else {
                    match mutf8_chars(bs.skip(p.1)) {
                        None => None,
                        Some(rest) => Some(seq![p.0] + rest),
                    }
                }
            },
        }
    }
}

/// A length-prefixed string: two-byte length, then that many bytes of
/// text. Plain UTF-8 is read as it stands; a payload that is not plain
/// UTF-8 is tolerated in the modified encoding ([`mutf8_chars`]) and
/// converted.
pub open spec fn sp_str(s: Seq<u8>) -> Result<(Seq<char>, int), Error> {
    match sp_raw(s, 2) {
        Err(e) => Err(e),
        Ok(p) => {
            let n = p.0 as int;
            if s.len() < 2 + n {
                Err(Error::Io(IoKind::Eof))
            } else {
                let bytes = s.subrange(2, 2 + n);
                if valid_utf8(bytes) {
                    Ok((decode_utf8(bytes), 2 + n))
                } else {
                    match mutf8_chars(bytes) {
                        Some(cs) => Ok((cs, 2 + n)),
                        None => Err(Error::Io(IoKind::InvalidUtf8)),
                    }
                }
            }
        },
    }
}

/// The optional top-level header: a tag byte, then (unless the tag is the
/// end marker) a name string.
pub open spec fn sp_header(s: Seq<u8>) -> Result<(u8, Seq<char>, int), Error> {
    match sp_u8(s) {
        Err(e) => Err(e),
        Ok(p) => {
            let tag = p.0;
            if tag == TAG_END {
                Ok((tag, Seq::empty(), 1))
            } else {
                match sp_str(s.skip(1)) {
                    Err(e) => Err(e),
                    Ok(q) => Ok((tag, q.0, 1 + q.1)),
                }
            }
        },
    }
}

/// One value introduced by `tag`, whose tag byte has already been
/// consumed. `d` is the nesting budget left for this value: each compound
/// or list level spends one unit, and a value offered no budget fails
/// with [`Error::DepthExceeded`] before anything is read.
pub open spec fn sp_value(s: Seq<u8>, tag: u8, d: nat) -> Result<(ValueSpec, int), Error>
    decreases s.len(), 1int, 0int,
{
    if d == 0 {
        Err(Error::DepthExceeded)
    } else if tag == TAG_BYTE {
        match sp_u8(s) {
            Ok(p) => Ok((ValueSpec::Byte(i8_of(p.0)), 1)),
            Err(e) => Err(e),
        }
    } else if tag == TAG_SHORT {
        match sp_raw(s, 2) {
            Ok(p) => Ok((ValueSpec::Short(i16_of(p.0)), 2)),
            Err(e) => Err(e),
        }
    } else if tag == TAG_INT {
        match sp_raw(s, 4) {
            Ok(p) => Ok((ValueSpec::Int(i32_of(p.0)), 4)),
            Err(e) => Err(e),
        }
    } else if tag == TAG_LONG {
        match sp_raw(s, 8) {
            Ok(p) => Ok((ValueSpec::Long(i64_of(p.0)), 8)),
            Err(e) => Err(e),
        }
    } else if tag == TAG_FLOAT {
        match sp_raw(s, 4) {
            Ok(p) => Ok((ValueSpec::Float(p.0 as u32), 4)),
            Err(e) => Err(e),
        }
    } else if tag == TAG_DOUBLE {
        match sp_raw(s, 8) {
            Ok(p) => Ok((ValueSpec::Double(p.0 as u64), 8)),
            Err(e) => Err(e),
        }
    } else if tag == TAG_BYTE_ARRAY {
        sp_byte_array(s, d)
    } else if tag == TAG_STRING {
        match sp_str(s) {
            Ok(p) => Ok((ValueSpec::Text(p.0), p.1)),
            Err(e) => Err(e),
        }
    } else if tag == TAG_LIST {
        sp_list(s, d)
    } else if tag == TAG_COMPOUND {
        match sp_entries(s, (d - 1) as nat) {
            Ok(p) => Ok((ValueSpec::Compound(p.0), p.1)),
            Err(e) => Err(e),
        }
    } else if tag == TAG_INT_ARRAY {
        sp_int_array(s, d)
    } else if tag == TAG_LONG_ARRAY {
        sp_long_array(s, d)
    } else {
        Err(Error::InvalidTypeId(tag))
    }
}

/// A list payload: element tag, four-byte element count, then the elements.
/// A negative count never equals the running element index, so decoding
/// then consumes elements until one fails; `sp_run` names that failure.
pub open spec fn sp_list(s: Seq<u8>, d: nat) -> Result<(ValueSpec, int), Error>
    decreases s.len(), 0int, 0int,
{
    if s.len() < 5 {
        Err(Error::Io(IoKind::Eof))
    } else {
        let t = s[0];
        let len = i32_of(be_nat(s.subrange(1, 5)));
        if len == 0 {
            Ok((ValueSpec::List(t, Seq::empty()), 5))
        } else if len < 0 {
            Err(sp_run(s.skip(5), t, (d - 1) as nat))
        } else {
            match sp_elems(s.skip(5), t, len as nat, (d - 1) as nat) {
                Err(e) => Err(e),
                Ok(p) => Ok((ValueSpec::List(t, p.0), 5 + p.1)),
            }
        }
    }
}

/// A byte-array payload: four-byte count, then that many signed bytes.
pub open spec fn sp_byte_array(s: Seq<u8>, d: nat) -> Result<(ValueSpec, int), Error>
    decreases s.len(), 0int, 0int,
{
    if s.len() < 4 {
        Err(Error::Io(IoKind::Eof))
    } else {
        let len = i32_of(be_nat(s.subrange(0, 4)));
        if len < 0 {
            Err(sp_run(s.skip(4), TAG_BYTE, d))
        } else if s.len() < 4 + len {
            Err(Error::Io(IoKind::Eof))
        } else {
            Ok((ValueSpec::ByteArray(Seq::new(len as nat, |i: int| i8_of(s[4 + i]))), 4 + len))
        }
    }
}

/// An int-array payload: four-byte count, then that many four-byte values.
pub open spec fn sp_int_array(s: Seq<u8>, d: nat) -> Result<(ValueSpec, int), Error>
    decreases s.len(), 0int, 0int,
{
    if s.len() < 4 {
        Err(Error::Io(IoKind::Eof))
    } else {
        let len = i32_of(be_nat(s.subrange(0, 4)));
        if len < 0 {
            Err(sp_run(s.skip(4), TAG_INT, d))
        } else if s.len() < 4 + 4 * len {
            Err(Error::Io(IoKind::Eof))
        } else {
            Ok(
                (
                    ValueSpec::IntArray(
                        Seq::new(len as nat, |i: int| i32_of(be_nat(s.subrange(4 + 4 * i, 8 + 4 * i)))),
                    ),
                    4 + 4 * len,
                ),
            )
        }
    }
}

/// A long-array payload: four-byte count, then that many eight-byte values.
pub open spec fn sp_long_array(s: Seq<u8>, d: nat) -> Result<(ValueSpec, int), Error>
    decreases s.len(), 0int, 0int,
{
    if s.len() < 4 {
        Err(Error::Io(IoKind::Eof))
    } else {
        let len = i32_of(be_nat(s.subrange(0, 4)));
        if len < 0 {
            Err(sp_run(s.skip(4), TAG_LONG, d))
        } else if s.len() < 4 + 8 * len {
            Err(Error::Io(IoKind::Eof))
        } else {
            Ok(
                (
                    ValueSpec::LongArray(
                        Seq::new(len as nat, |i: int| i64_of(be_nat(s.subrange(4 + 8 * i, 12 + 8 * i)))),
                    ),
                    4 + 8 * len,
                ),
            )
        }
    }
}

/// Exactly `count` same-typed elements, one after the other.
pub open spec fn sp_elems(s: Seq<u8>, tag: u8, count: nat, d: nat) -> Result<
    (Seq<ValueSpec>, int),
    Error,
>
    decreases s.len(), 2int, count,
{
    if count == 0 {
        Ok((Seq::empty(), 0))
    } else {
        match sp_value(s, tag, d) {
            Err(e) => Err(e),
            Ok(p) => {
                let n = p.1;
                if n < 0 || n > s.len() {
                    Err(Error::Io(IoKind::Eof))
                } else {
                    match sp_elems(s.skip(n), tag, (count - 1) as nat, d) {
                        Err(e) => Err(e),
                        Ok(q) => Ok((seq![p.0] + q.0, n + q.1)),
                    }
                }
            },
        }
    }
}

/// The failure that decoding same-typed elements without end runs into.
/// Every successful element consumes at least one byte, so a failure is
/// inevitable; this names the first one.
pub open spec fn sp_run(s: Seq<u8>, tag: u8, d: nat) -> Error
    decreases s.len(), 2int, 0int,
{
    match sp_value(s, tag, d) {
        Err(e) => e,
        Ok(p) => {
            if p.1 < 1 || p.1 > s.len() {
                Error::Io(IoKind::Eof)
            } else {
                sp_run(s.skip(p.1), tag, d)
            }
        },
    }
}

/// The entries of a compound: (tag, key, value) triples up to the end
/// marker. The tag byte read for an entry belongs to the value; the key
/// that follows it is always read as a string, whatever the tag was.
pub open spec fn sp_entries(s: Seq<u8>, d: nat) -> Result<(Seq<(Seq<char>, ValueSpec)>, int), Error>
    decreases s.len(), 0int, 0int,
{
    if s.len() < 1 {
        Err(Error::Io(IoKind::Eof))
    } else {
        let tag = s[0];
        if tag == TAG_END {
            Ok((Seq::empty(), 1))
        } else {
            match sp_str(s.skip(1)) {
                Err(e) => Err(e),
                Ok(k) => {
                    let kn = k.1;
                    if kn < 0 || 1 + kn > s.len() {
                        Err(Error::Io(IoKind::Eof))
                    } else {
                        match sp_value(s.skip(1 + kn), tag, d) {
                            Err(e) => Err(e),
                            Ok(v) => {
                                let m = 1 + kn + v.1;
                                if v.1 < 0 || m > s.len() {
                                    Err(Error::Io(IoKind::Eof))
                                } else {
                                    match sp_entries(s.skip(m), d) {
                                        Err(e) => Err(e),
                                        Ok(r) => Ok((seq![(k.0, v.0)] + r.0, m + r.1)),
                                    }
                                }
                            },
                        }
                    }
                },
            }
        }
    }
}

/// A whole top-level document: the header, whose tag must announce a
/// compound, then the compound's entries. Any other root tag is rejected
/// before anything further is read.
pub open spec fn sp_root(s: Seq<u8>) -> Result<(ValueSpec, int), Error> {
    match sp_header(s) {
        Err(e) => Err(e),
        Ok(h) => {
            if h.0 != TAG_COMPOUND {
                Err(Error::NoRootCompound)
            } else if h.2 < 0 || h.2 > s.len() {
                Err(Error::Io(IoKind::Eof))
            } else {
                match sp_entries(s.skip(h.2), (MAX_DEPTH - 1) as nat) {
                    Err(e) => Err(e),
                    Ok(p) => Ok((ValueSpec::Compound(p.0), h.2 + p.1)),
                }
            }
        },
    }
}

/// A narrowly-typed boolean request: the tag must be Byte, and the byte
/// must be 0 or 1.
pub open spec fn sp_bool(s: Seq<u8>, tag: u8) -> Result<(bool, int), Error> {
    if tag != TAG_BYTE {
        Err(Error::TagMismatch(tag, TAG_BYTE))
    } else {
        match sp_u8(s) {
            Err(e) => Err(e),
            Ok(p) => {
                if p.0 == 0 {
                    Ok((false, 1))
                } else if p.0 == 1 {
                    Ok((true, 1))
                } else {
                    Err(Error::NonBooleanByte(i8_of(p.0)))
                }
            },
        }
    }
}

/// A narrowly-typed string request: the tag must be String.
pub open spec fn sp_string(s: Seq<u8>, tag: u8) -> Result<(Seq<char>, int), Error> {
    if tag != TAG_STRING {
        Err(Error::TagMismatch(tag, TAG_STRING))
    } else {
        sp_str(s)
    }
}

// ---------------------------------------------------------------------------
// Well-formed trees and the encoder
// ---------------------------------------------------------------------------

/// A tree that the wire format can carry: lengths fit their prefixes, and
/// a non-empty list's elements all match its declared tag.
pub open spec fn wf_value(v: ValueSpec) -> bool
    decreases v, 1int,
{
    match v {
        ValueSpec::ByteArray(bs) => bs.len() <= 0x7fffffff,
        ValueSpec::Text(cs) => encode_utf8(cs).len() <= 0xffff,
        ValueSpec::List(t, es) => es.len() <= 0x7fffffff && wf_elems(es, t),
        ValueSpec::Compound(es) => wf_entries(es),
        ValueSpec::IntArray(xs) => xs.len() <= 0x7fffffff,
        ValueSpec::LongArray(xs) => xs.len() <= 0x7fffffff,
        _ => true,
    }
}

/// Every element is well formed and carries the list's tag.
pub open spec fn wf_elems(es: Seq<ValueSpec>, tag: u8) -> bool
    decreases es, 0int,
{
    es.len() == 0 || (tag_of(es[0]) == tag && wf_value(es[0]) && wf_elems(es.drop_first(), tag))
}

/// Every entry has an encodable key and a well-formed value.
pub open spec fn wf_entries(es: Seq<(Seq<char>, ValueSpec)>) -> bool
    decreases es, 0int,
{
    es.len() == 0 || (encode_utf8(es[0].0).len() <= 0xffff && wf_value(es[0].1) && wf_entries(
        es.drop_first(),
    ))
}

/// Fixed-width big-endian digit strings.
pub open spec fn be2(n: nat) -> Seq<u8> {
    nat_to_be(n, 2)
}

pub open spec fn be4(n: nat) -> Seq<u8> {
    nat_to_be(n, 4)
}

pub open spec fn be8(n: nat) -> Seq<u8> {
    nat_to_be(n, 8)
}

/// The wire bytes of a length-prefixed string.
pub open spec fn enc_str(cs: Seq<char>) -> Seq<u8> {
    be2(encode_utf8(cs).len()) + encode_utf8(cs)
}

/// The wire bytes of a value's payload, its tag byte not included.
pub open spec fn enc_value(v: ValueSpec) -> Seq<u8>
    decreases v, 1int,
{
    match v {
        ValueSpec::Byte(x) => seq![u8_of_i8(x)],
        ValueSpec::Short(x) => be2(nat_of_i16(x)),
        ValueSpec::Int(x) => be4(nat_of_i32(x)),
        ValueSpec::Long(x) => be8(nat_of_i64(x)),
        ValueSpec::Float(b) => be4(b as nat),
        ValueSpec::Double(b) => be8(b as nat),
        ValueSpec::ByteArray(bs) => be4(bs.len()) + bs.map_values(|x: i8| u8_of_i8(x)),
        ValueSpec::Text(cs) => enc_str(cs),
        ValueSpec::List(t, es) => seq![t] + be4(es.len()) + enc_elems(es),
        ValueSpec::Compound(es) => enc_entries(es) + seq![TAG_END],
        ValueSpec::IntArray(xs) => be4(xs.len()) + enc_ints(xs),
        ValueSpec::LongArray(xs) => be4(xs.len()) + enc_longs(xs),
    }
}

/// The concatenated payloads of a list's elements.
pub open spec fn enc_elems(es: Seq<ValueSpec>) -> Seq<u8>
    decreases es, 0int,
{
    if es.len() == 0 {
        Seq::empty()
    } else {
        enc_value(es[0]) + enc_elems(es.drop_first())
    }
}

/// The concatenated (tag, key, value) triples of a compound's entries.
pub open spec fn enc_entries(es: Seq<(Seq<char>, ValueSpec)>) -> Seq<u8>
    decreases es, 0int,
{
    if es.len() == 0 {
        Seq::empty()
    } else {
        seq![tag_of(es[0].1)] + enc_str(es[0].0) + enc_value(es[0].1) + enc_entries(
            es.drop_first(),
        )
    }
}

/// The concatenated four-byte encodings of an int array.
pub open spec fn enc_ints(xs: Seq<i32>) -> Seq<u8>
    decreases xs.len(),
{
    if xs.len() == 0 {
        Seq::empty()
    } else {
        be4(nat_of_i32(xs[0])) + enc_ints(xs.drop_first())
    }
}

/// The concatenated eight-byte encodings of a long array.
pub open spec fn enc_longs(xs: Seq<i64>) -> Seq<u8>
    decreases xs.len(),
{
    if xs.len() == 0 {
        Seq::empty()
    } else {
        be8(nat_of_i64(xs[0])) + enc_longs(xs.drop_first())
    }
}

/// The nesting budget a tree needs: one level for the value itself, and
/// one more for each level of compounds and lists below it.
pub open spec fn depth_of(v: ValueSpec) -> nat
    decreases v, 1int,
{
    match v {
        ValueSpec::List(_, es) => 1 + depth_of_elems(es),
        ValueSpec::Compound(es) => 1 + depth_of_entries(es),
        _ => 1,
    }
}

/// The largest budget any element needs.
pub open spec fn depth_of_elems(es: Seq<ValueSpec>) -> nat
    decreases es, 0int,
{
    if es.len() == 0 {
        0
    } else {
        let first = depth_of(es[0]);
        let rest = depth_of_elems(es.drop_first());
        if first >= rest {
            first
        } else {
            rest
        }
    }
}

/// The largest budget any entry's value needs.
pub open spec fn depth_of_entries(es: Seq<(Seq<char>, ValueSpec)>) -> nat
    decreases es, 0int,
{
    if es.len() == 0 {
        0
    } else {
        let first = depth_of(es[0].1);
        let rest = depth_of_entries(es.drop_first());
        if first >= rest {
            first
        } else {
            rest
        }
    }
}

// ---------------------------------------------------------------------------
// Arithmetic facts
// ---------------------------------------------------------------------------

pub proof fn lemma_pow256_pos(w: nat)
    ensures
        pow256(w) >= 1,
    decreases w,
{
    if w > 0 {
        lemma_pow256_pos((w - 1) as nat);
    }
}

pub proof fn lemma_pow256_mono(a: nat, b: nat)
    requires
        a <= b,
    ensures
        pow256(a) <= pow256(b),
    decreases b,
{
    if a < b {
        lemma_pow256_mono(a, (b - 1) as nat);
        lemma_pow256_pos((b - 1) as nat);
    }
}

/// The widths the format uses.
pub proof fn lemma_pow256_values()
    ensures
        pow256(1) == 0x100,
        pow256(2) == 0x10000,
        pow256(4) == 0x100000000,
        pow256(8) == 0x10000000000000000,
{
    reveal_with_fuel(pow256, 9);
}

/// A `w`-digit string denotes less than `pow256(w)`.
pub proof fn lemma_be_nat_bound(s: Seq<u8>)
    ensures
        be_nat(s) < pow256(s.len()),
    decreases s.len(),
{
    if s.len() > 0 {
        lemma_be_nat_bound(s.drop_last());
    }
}

// ---------------------------------------------------------------------------
// Bounds of the parser
// ---------------------------------------------------------------------------

/// A successful string parse consumes between 2 and all of the input.
pub proof fn lemma_sp_str_bounds(s: Seq<u8>)
    ensures
        sp_str(s) matches Ok(p) ==> 2 <= p.1 <= s.len(),
{
}

/// A successful parse consumes at least one byte and no more than the
/// input holds; the dead guard branches of the parser never fire.
pub proof fn lemma_sp_value_bounds(s: Seq<u8>, tag: u8, d: nat)
    ensures
        sp_value(s, tag, d) matches Ok(p) ==> 1 <= p.1 <= s.len(),
    decreases s.len(), 1int, 0int,
{
    if d > 0 {
        if tag == TAG_LIST {
            if s.len() >= 5 {
                let len = i32_of(be_nat(s.subrange(1, 5)));
                if len > 0 {
                    lemma_sp_elems_bounds(s.skip(5), s[0], len as nat, (d - 1) as nat);
                }
            }
        } else if tag == TAG_COMPOUND {
            lemma_sp_entries_bounds(s, (d - 1) as nat);
        } else if tag == TAG_STRING {
            lemma_sp_str_bounds(s);
        }
    }
}

/// Parsing `count` elements consumes between 0 and all of the input.
pub proof fn lemma_sp_elems_bounds(s: Seq<u8>, tag: u8, count: nat, d: nat)
    ensures
        sp_elems(s, tag, count, d) matches Ok(p) ==> 0 <= p.1 <= s.len(),
    decreases s.len(), 2int, count,
{
    if count > 0 {
        lemma_sp_value_bounds(s, tag, d);
        match sp_value(s, tag, d) {
            Ok(p) => {
                lemma_sp_elems_bounds(s.skip(p.1), tag, (count - 1) as nat, d);
            },
            Err(_) => {},
        }
    }
}

/// Parsing a compound's entries consumes between 1 and all of the input.
pub proof fn lemma_sp_entries_bounds(s: Seq<u8>, d: nat)
    ensures
        sp_entries(s, d) matches Ok(p) ==> 1 <= p.1 <= s.len(),
    decreases s.len(), 0int, 0int,
{
    if s.len() >= 1 && s[0] != TAG_END {
        lemma_sp_str_bounds(s.skip(1));
        match sp_str(s.skip(1)) {
            Ok(k) => {
                lemma_sp_value_bounds(s.skip(1 + k.1), s[0], d);
                match sp_value(s.skip(1 + k.1), s[0], d) {
                    Ok(v) => {
                        lemma_sp_entries_bounds(s.skip(1 + k.1 + v.1), d);
                    },
                    Err(_) => {},
                }
            },
            Err(_) => {},
        }
    }
}

} // verus!
