//! The laws of the format, proved over the model.
//!
//! The central statement is the round trip: any well-formed value tree,
//! encoded by [`crate::model::enc_value`] and followed by arbitrary
//! trailing bytes, is decoded back by the specification parser to exactly
//! that tree, consuming exactly its encoding. Together with the decoder's
//! contracts in [`crate::de`], this carries over to the executable
//! decoder. The smaller lemmas pin down compound termination and the
//! empty list.

use vstd::prelude::*;
use vstd::utf8::{encode_utf8, encode_utf8_valid_utf8, encode_utf8_decode_utf8};
use crate::error::Error;
use crate::model::{
    ValueSpec, tag_of, be_nat, pow256, nat_to_be, i8_of, i16_of, i32_of, i64_of, u8_of_i8,
    nat_of_i16, nat_of_i32, nat_of_i64, be2, be4, be8, enc_str, enc_value, enc_elems, enc_entries,
    enc_ints, enc_longs, wf_value, wf_elems, wf_entries, depth_of, depth_of_elems,
    depth_of_entries, sp_raw, sp_str, sp_value, sp_elems, sp_entries, sp_root,
    lemma_pow256_values, TAG_END, TAG_COMPOUND, TAG_LIST, TAG_BYTE_ARRAY, TAG_INT_ARRAY,
    TAG_LONG_ARRAY, MAX_DEPTH,
};

verus! {

broadcast use vstd::seq::axiom_seq_index_decreases, vstd::seq::axiom_seq_subrange_decreases;

/// A big-endian digit string written from `n < pow256(w)` reads back as
/// `n`, and is `w` digits long.
pub proof fn lemma_be_round_trip(n: nat, w: nat)
    requires
        n < pow256(w),
    ensures
        nat_to_be(n, w).len() == w,
        be_nat(nat_to_be(n, w)) == n,
    decreases w,
{
    if w > 0 {
        assert(n / 256 < pow256((w - 1) as nat)) by {
            assert(pow256(w) == 256 * pow256((w - 1) as nat));
            assert(n / 256 < pow256((w - 1) as nat)) by (nonlinear_arith)
                requires
                    n < 256 * pow256((w - 1) as nat),
            ;
        }
        lemma_be_round_trip(n / 256, (w - 1) as nat);
        let a = nat_to_be(n / 256, (w - 1) as nat);
        let s = nat_to_be(n, w);
        assert(s == a.push((n % 256) as u8));
        assert(s.drop_last() =~= a);
        assert(s.last() == (n % 256) as u8);
        assert(be_nat(s) == be_nat(a) * 256 + n % 256);
        assert((n / 256) * 256 + n % 256 == n) by (nonlinear_arith);
    }
}

/// Parsing a `w`-byte number off a written digit string and a tail gives
/// the number back and stops at the tail.
proof fn lemma_raw_round_trip(n: nat, w: nat, tail: Seq<u8>)
    requires
        n < pow256(w),
    ensures
        sp_raw(nat_to_be(n, w) + tail, w as int) == Ok::<_, Error>((n, w as int)),
{
    lemma_be_round_trip(n, w);
    let s = nat_to_be(n, w) + tail;
    assert(s.subrange(0, w as int) =~= nat_to_be(n, w));
}

/// Parsing a written string off its encoding and a tail gives the
/// characters back and stops at the tail.
proof fn lemma_str_round_trip(cs: Seq<char>, tail: Seq<u8>)
    requires
        encode_utf8(cs).len() <= 0xffff,
    ensures
        sp_str(enc_str(cs) + tail) == Ok::<_, Error>(
            (cs, 2 + encode_utf8(cs).len() as int),
        ),
        enc_str(cs).len() == 2 + encode_utf8(cs).len(),
{
    let bs = encode_utf8(cs);
    lemma_pow256_values();
    lemma_be_round_trip(bs.len(), 2);
    let s = enc_str(cs) + tail;
    assert(s.subrange(0, 2) =~= be2(bs.len()));
    assert(s.subrange(2, 2 + bs.len() as int) =~= bs);
    encode_utf8_valid_utf8(cs);
    encode_utf8_decode_utf8(cs);
}

/// The tag of a value is never the end marker.
pub proof fn lemma_tag_of_nonzero(v: ValueSpec)
    ensures
        tag_of(v) != TAG_END,
{
}

/// The concatenated int-array encoding is addressable element by element.
proof fn lemma_enc_ints_index(xs: Seq<i32>)
    ensures
        enc_ints(xs).len() == 4 * xs.len(),
        forall|j: int|
            0 <= j < xs.len() ==> enc_ints(xs).subrange(4 * j, 4 * j + 4) =~= be4(
                nat_of_i32(xs[j]),
            ),
    decreases xs.len(),
{
    lemma_pow256_values();
    if xs.len() > 0 {
        lemma_be_round_trip(nat_of_i32(xs[0]), 4);
        lemma_enc_ints_index(xs.drop_first());
        let rest = xs.drop_first();
        assert forall|j: int| 0 <= j < xs.len() implies enc_ints(xs).subrange(4 * j, 4 * j + 4)
            =~= be4(nat_of_i32(xs[j])) by {
            if j == 0 {
                assert(enc_ints(xs).subrange(0, 4) =~= be4(nat_of_i32(xs[0])));
            } else {
                assert(enc_ints(rest).subrange(4 * (j - 1), 4 * (j - 1) + 4) =~= be4(
                    nat_of_i32(rest[j - 1]),
                ));
                assert(enc_ints(xs).subrange(4 * j, 4 * j + 4) =~= enc_ints(rest).subrange(
                    4 * (j - 1),
                    4 * (j - 1) + 4,
                ));
            }
        }
    }
}

/// The concatenated long-array encoding is addressable element by element.
proof fn lemma_enc_longs_index(xs: Seq<i64>)
    ensures
        enc_longs(xs).len() == 8 * xs.len(),
        forall|j: int|
            0 <= j < xs.len() ==> enc_longs(xs).subrange(8 * j, 8 * j + 8) =~= be8(
                nat_of_i64(xs[j]),
            ),
    decreases xs.len(),
{
    lemma_pow256_values();
    if xs.len() > 0 {
        lemma_be_round_trip(nat_of_i64(xs[0]), 8);
        lemma_enc_longs_index(xs.drop_first());
        let rest = xs.drop_first();
        assert forall|j: int| 0 <= j < xs.len() implies enc_longs(xs).subrange(8 * j, 8 * j + 8)
            =~= be8(nat_of_i64(xs[j])) by {
            if j == 0 {
                assert(enc_longs(xs).subrange(0, 8) =~= be8(nat_of_i64(xs[0])));
            } else {
                assert(enc_longs(rest).subrange(8 * (j - 1), 8 * (j - 1) + 8) =~= be8(
                    nat_of_i64(rest[j - 1]),
                ));
                assert(enc_longs(xs).subrange(8 * j, 8 * j + 8) =~= enc_longs(rest).subrange(
                    8 * (j - 1),
                    8 * (j - 1) + 8,
                ));
            }
        }
    }
}

/// Round trip of a byte-array payload.
#[verifier::spinoff_prover]
#[verifier::rlimit(50)]
proof fn lemma_rt_byte_array(bs: Seq<i8>, tail: Seq<u8>, d: nat)
    requires
        bs.len() <= 0x7fffffff,
        d >= 1,
    ensures
        sp_value(enc_value(ValueSpec::ByteArray(bs)) + tail, TAG_BYTE_ARRAY, d) == Ok::<_, Error>(
            (ValueSpec::ByteArray(bs), enc_value(ValueSpec::ByteArray(bs)).len() as int),
        ),
{
    lemma_pow256_values();
    let e = enc_value(ValueSpec::ByteArray(bs));
    let s = e + tail;
    let payload = bs.map_values(|x: i8| u8_of_i8(x));
    assert(payload.len() == bs.len());
    lemma_raw_round_trip(bs.len(), 4, payload + tail);
    lemma_be_round_trip(bs.len(), 4);
    assert(be4(bs.len()) + (payload + tail) =~= s);
    assert(s.subrange(0, 4) =~= be4(bs.len()));
    assert(i32_of(bs.len()) == bs.len());
    assert forall|i: int| 0 <= i < bs.len() implies i8_of(s[4 + i]) == bs[i] by {
        assert(payload[i] == u8_of_i8(bs[i]));
        assert(s[4 + i] == payload[i]);
    }
    assert(Seq::new(bs.len(), |i: int| i8_of(s[4 + i])) =~= bs);
}

/// Round trip of an int-array payload.
#[verifier::spinoff_prover]
#[verifier::rlimit(50)]
proof fn lemma_rt_int_array(xs: Seq<i32>, tail: Seq<u8>, d: nat)
    requires
        xs.len() <= 0x7fffffff,
        d >= 1,
    ensures
        sp_value(enc_value(ValueSpec::IntArray(xs)) + tail, TAG_INT_ARRAY, d) == Ok::<_, Error>(
            (ValueSpec::IntArray(xs), enc_value(ValueSpec::IntArray(xs)).len() as int),
        ),
{
    lemma_pow256_values();
    let e = enc_value(ValueSpec::IntArray(xs));
    let s = e + tail;
    let payload = enc_ints(xs);
    lemma_enc_ints_index(xs);
    lemma_raw_round_trip(xs.len(), 4, payload + tail);
    lemma_be_round_trip(xs.len(), 4);
    assert(be4(xs.len()) + (payload + tail) =~= s);
    assert(s.subrange(0, 4) =~= be4(xs.len()));
    assert(i32_of(xs.len()) == xs.len());
    assert forall|i: int| 0 <= i < xs.len() implies i32_of(
        be_nat(s.subrange(4 + 4 * i, 8 + 4 * i)),
    ) == xs[i] by {
        assert(s.subrange(4 + 4 * i, 8 + 4 * i) =~= payload.subrange(4 * i, 4 * i + 4));
        lemma_be_round_trip(nat_of_i32(xs[i]), 4);
        assert(i32_of(nat_of_i32(xs[i])) == xs[i]);
    }
    assert(Seq::new(xs.len(), |i: int| i32_of(be_nat(s.subrange(4 + 4 * i, 8 + 4 * i)))) =~= xs);
}

/// Round trip of a long-array payload.
#[verifier::spinoff_prover]
#[verifier::rlimit(50)]
proof fn lemma_rt_long_array(xs: Seq<i64>, tail: Seq<u8>, d: nat)
    requires
        xs.len() <= 0x7fffffff,
        d >= 1,
    ensures
        sp_value(enc_value(ValueSpec::LongArray(xs)) + tail, TAG_LONG_ARRAY, d) == Ok::<_, Error>(
            (ValueSpec::LongArray(xs), enc_value(ValueSpec::LongArray(xs)).len() as int),
        ),
{
    lemma_pow256_values();
    let e = enc_value(ValueSpec::LongArray(xs));
    let s = e + tail;
    let payload = enc_longs(xs);
    lemma_enc_longs_index(xs);
    lemma_raw_round_trip(xs.len(), 4, payload + tail);
    lemma_be_round_trip(xs.len(), 4);
    assert(be4(xs.len()) + (payload + tail) =~= s);
    assert(s.subrange(0, 4) =~= be4(xs.len()));
    assert(i32_of(xs.len()) == xs.len());
    assert forall|i: int| 0 <= i < xs.len() implies i64_of(
        be_nat(s.subrange(4 + 8 * i, 12 + 8 * i)),
    ) == xs[i] by {
        assert(s.subrange(4 + 8 * i, 12 + 8 * i) =~= payload.subrange(8 * i, 8 * i + 8));
        lemma_be_round_trip(nat_of_i64(xs[i]), 8);
        assert(i64_of(nat_of_i64(xs[i])) == xs[i]);
    }
    assert(Seq::new(xs.len(), |i: int| i64_of(be_nat(s.subrange(4 + 8 * i, 12 + 8 * i)))) =~= xs);
}

/// Round trip of a list: its header, then its elements.
#[verifier::spinoff_prover]
#[verifier::rlimit(50)]
proof fn lemma_rt_list(t: u8, es: Seq<ValueSpec>, tail: Seq<u8>, d: nat)
    requires
        wf_value(ValueSpec::List(t, es)),
        depth_of(ValueSpec::List(t, es)) <= d,
    ensures
        sp_value(enc_value(ValueSpec::List(t, es)) + tail, TAG_LIST, d) == Ok::<_, Error>(
            (ValueSpec::List(t, es), enc_value(ValueSpec::List(t, es)).len() as int),
        ),
    decreases ValueSpec::List(t, es), 0int,
{
    lemma_pow256_values();
    let e = enc_value(ValueSpec::List(t, es));
    let s = e + tail;
    let elems = enc_elems(es);
    lemma_be_round_trip(es.len(), 4);
    assert(s[0] == t);
    assert(s.subrange(1, 5) =~= be4(es.len()));
    assert(i32_of(es.len()) == es.len());
    if es.len() == 0 {
        assert(es =~= Seq::<ValueSpec>::empty());
        assert(e.len() == 5);
    } else {
        assert(s.skip(5) =~= elems + tail);
        assert(depth_of_elems(es) <= (d - 1) as nat);
        lemma_elems_round_trip(es, t, tail, (d - 1) as nat);
    }
}

/// One definitional step of `sp_elems`, packaged to keep queries small.
#[verifier::spinoff_prover]
proof fn lemma_sp_elems_unfold(
    s: Seq<u8>,
    tag: u8,
    count: nat,
    d: nat,
    v0: ValueSpec,
    n0: int,
    rest: Seq<ValueSpec>,
    nr: int,
)
    requires
        count > 0,
        sp_value(s, tag, d) == Ok::<_, Error>((v0, n0)),
        0 <= n0 <= s.len(),
        sp_elems(s.skip(n0), tag, (count - 1) as nat, d) == Ok::<_, Error>((rest, nr)),
    ensures
        sp_elems(s, tag, count, d) == Ok::<_, Error>((seq![v0] + rest, n0 + nr)),
{
}

/// One definitional step of `sp_entries`, packaged to keep queries small.
#[verifier::spinoff_prover]
proof fn lemma_sp_entries_unfold(
    s: Seq<u8>,
    d: nat,
    key: Seq<char>,
    kn: int,
    v0: ValueSpec,
    vn: int,
    rest: Seq<(Seq<char>, ValueSpec)>,
    nr: int,
)
    requires
        s.len() >= 1,
        s[0] == tag_of(v0),
        sp_str(s.skip(1)) == Ok::<_, Error>((key, kn)),
        0 <= kn && 1 + kn <= s.len(),
        sp_value(s.skip(1 + kn), tag_of(v0), d) == Ok::<_, Error>((v0, vn)),
        0 <= vn && 1 + kn + vn <= s.len(),
        sp_entries(s.skip(1 + kn + vn), d) == Ok::<_, Error>((rest, nr)),
    ensures
        sp_entries(s, d) == Ok::<_, Error>((seq![(key, v0)] + rest, 1 + kn + vn + nr)),
{
    lemma_tag_of_nonzero(v0);
}

/// Round trip of a compound payload: its entries and the end marker.
#[verifier::spinoff_prover]
#[verifier::rlimit(50)]
proof fn lemma_rt_compound(es: Seq<(Seq<char>, ValueSpec)>, tail: Seq<u8>, d: nat)
    requires
        wf_entries(es),
        depth_of(ValueSpec::Compound(es)) <= d,
    ensures
        sp_value(enc_value(ValueSpec::Compound(es)) + tail, TAG_COMPOUND, d) == Ok::<_, Error>(
            (ValueSpec::Compound(es), enc_value(ValueSpec::Compound(es)).len() as int),
        ),
    decreases ValueSpec::Compound(es), 0int,
{
    let e = enc_value(ValueSpec::Compound(es));
    let s = e + tail;
    assert(s =~= enc_entries(es) + seq![TAG_END] + tail);
    assert(depth_of_entries(es) <= (d - 1) as nat);
    lemma_entries_round_trip(es, tail, (d - 1) as nat);
}

/// Round trip of one value: a well-formed tree, encoded and followed by
/// any tail, parses back to exactly that tree, consuming exactly its
/// encoding.
pub proof fn lemma_value_round_trip(v: ValueSpec, tail: Seq<u8>, d: nat)
    requires
        wf_value(v),
        depth_of(v) <= d,
    ensures
        sp_value(enc_value(v) + tail, tag_of(v), d) == Ok::<_, Error>(
            (v, enc_value(v).len() as int),
        ),
    decreases v, 1int,
{
    lemma_pow256_values();
    let e = enc_value(v);
    let s = e + tail;
    assert(d >= 1);
    match v {
        ValueSpec::Byte(x) => {
            assert(s[0] == u8_of_i8(x));
            assert(i8_of(u8_of_i8(x)) == x);
        },
        ValueSpec::Short(x) => {
            lemma_raw_round_trip(nat_of_i16(x), 2, tail);
            lemma_be_round_trip(nat_of_i16(x), 2);
            assert(i16_of(nat_of_i16(x)) == x);
        },
        ValueSpec::Int(x) => {
            lemma_raw_round_trip(nat_of_i32(x), 4, tail);
            lemma_be_round_trip(nat_of_i32(x), 4);
            assert(i32_of(nat_of_i32(x)) == x);
        },
        ValueSpec::Long(x) => {
            lemma_raw_round_trip(nat_of_i64(x), 8, tail);
            lemma_be_round_trip(nat_of_i64(x), 8);
            assert(i64_of(nat_of_i64(x)) == x);
        },
        ValueSpec::Float(b) => {
            lemma_raw_round_trip(b as nat, 4, tail);
            lemma_be_round_trip(b as nat, 4);
        },
        ValueSpec::Double(b) => {
            lemma_raw_round_trip(b as nat, 8, tail);
            lemma_be_round_trip(b as nat, 8);
        },
        ValueSpec::ByteArray(bs) => {
            lemma_rt_byte_array(bs, tail, d);
        },
        ValueSpec::Text(cs) => {
            lemma_str_round_trip(cs, tail);
        },
        ValueSpec::List(t, es) => {
            lemma_rt_list(t, es, tail, d);
        },
        ValueSpec::Compound(es) => {
            lemma_rt_compound(es, tail, d);
        },
        ValueSpec::IntArray(xs) => {
            lemma_rt_int_array(xs, tail, d);
        },
        ValueSpec::LongArray(xs) => {
            lemma_rt_long_array(xs, tail, d);
        },
    }
}

/// Round trip of a list's elements, element by element.
#[verifier::rlimit(100)]
#[verifier::spinoff_prover]
pub proof fn lemma_elems_round_trip(es: Seq<ValueSpec>, tag: u8, tail: Seq<u8>, d: nat)
    requires
        wf_elems(es, tag),
        depth_of_elems(es) <= d,
    ensures
        sp_elems(enc_elems(es) + tail, tag, es.len(), d) == Ok::<_, Error>(
            (es, enc_elems(es).len() as int),
        ),
    decreases es, 0int,
{
    let s = enc_elems(es) + tail;
    if es.len() == 0 {
        assert(enc_elems(es).len() == 0);
        assert(es =~= Seq::<ValueSpec>::empty());
    } else {
        let rest = es.drop_first();
        let e0 = enc_value(es[0]);
        let n0 = e0.len() as int;
        assert(depth_of(es[0]) <= d && depth_of_elems(rest) <= d);
        assert(sp_value(s, tag, d) == Ok::<_, Error>((es[0], n0)) && n0 <= s.len()) by {
            lemma_value_round_trip(es[0], enc_elems(rest) + tail, d);
            assert(s =~= e0 + (enc_elems(rest) + tail));
        }
        assert(sp_elems(s.skip(n0), tag, (es.len() - 1) as nat, d) == Ok::<_, Error>(
            (rest, enc_elems(rest).len() as int),
        )) by {
            assert(s.skip(n0) =~= enc_elems(rest) + tail);
            lemma_elems_round_trip(rest, tag, tail, d);
        }
        lemma_sp_elems_unfold(
            s,
            tag,
            es.len(),
            d,
            es[0],
            n0,
            rest,
            enc_elems(rest).len() as int,
        );
        assert(seq![es[0]] + rest =~= es);
        assert(enc_elems(es).len() == e0.len() + enc_elems(rest).len());
    }
}

/// Round trip of a compound's entries, entry by entry, up to the end
/// marker.
#[verifier::rlimit(50)]
pub proof fn lemma_entries_round_trip(es: Seq<(Seq<char>, ValueSpec)>, tail: Seq<u8>, d: nat)
    requires
        wf_entries(es),
        depth_of_entries(es) <= d,
    ensures
        sp_entries(enc_entries(es) + seq![TAG_END] + tail, d) == Ok::<_, Error>(
            (es, enc_entries(es).len() as int + 1),
        ),
    decreases es, 0int,
{
    let s = enc_entries(es) + seq![TAG_END] + tail;
    if es.len() == 0 {
        assert(s =~= seq![TAG_END] + tail);
        assert(s[0] == TAG_END);
        assert(Ok::<_, Error>((Seq::<(Seq<char>, ValueSpec)>::empty(), 1int)) == Ok::<_, Error>(
            (es, enc_entries(es).len() as int + 1),
        )) by {
            assert(es =~= Seq::<(Seq<char>, ValueSpec)>::empty());
        }
    } else {
        let rest = es.drop_first();
        let key = es[0].0;
        let v = es[0].1;
        let t = tag_of(v);
        lemma_tag_of_nonzero(v);
        assert(s[0] == t);
        let after_key = enc_value(v) + enc_entries(rest) + seq![TAG_END] + tail;
        lemma_str_round_trip(key, after_key);
        assert(s.skip(1) =~= enc_str(key) + after_key);
        let kn = 2 + encode_utf8(key).len() as int;
        assert(sp_str(s.skip(1)) == Ok::<_, Error>((key, kn)));
        assert(0 <= kn && 1 + kn <= s.len());
        assert(s.skip(1 + kn) =~= enc_value(v) + (enc_entries(rest) + seq![TAG_END] + tail));
        assert(depth_of(v) <= d && depth_of_entries(rest) <= d);
        lemma_value_round_trip(v, enc_entries(rest) + seq![TAG_END] + tail, d);
        let vn = enc_value(v).len() as int;
        assert(sp_value(s.skip(1 + kn), t, d) == Ok::<_, Error>((v, vn)));
        let m = 1 + kn + vn;
        assert(0 <= vn && m <= s.len());
        assert(s.skip(m) =~= enc_entries(rest) + seq![TAG_END] + tail);
        lemma_entries_round_trip(rest, tail, d);
        lemma_sp_entries_unfold(
            s,
            d,
            key,
            kn,
            v,
            vn,
            rest,
            enc_entries(rest).len() as int + 1,
        );
        assert(seq![(key, v)] + rest =~= es);
        assert(enc_entries(es).len() == m + enc_entries(rest).len());
    }
}

/// Round trip of a whole document: a compound header carrying any name,
/// the encoded entries, and any trailing bytes parse back to exactly the
/// compound, leaving the trailing bytes unconsumed.
pub proof fn lemma_root_round_trip(
    es: Seq<(Seq<char>, ValueSpec)>,
    name: Seq<char>,
    tail: Seq<u8>,
)
    requires
        wf_entries(es),
        encode_utf8(name).len() <= 0xffff,
        depth_of_entries(es) <= MAX_DEPTH - 1,
    ensures
        sp_root(seq![TAG_COMPOUND] + enc_str(name) + (enc_entries(es) + seq![TAG_END]) + tail)
            == Ok::<_, Error>(
            (
                ValueSpec::Compound(es),
                1 + enc_str(name).len() as int + enc_entries(es).len() as int + 1,
            ),
        ),
{
    let s = seq![TAG_COMPOUND] + enc_str(name) + (enc_entries(es) + seq![TAG_END]) + tail;
    assert(s[0] == TAG_COMPOUND);
    let body = enc_entries(es) + seq![TAG_END] + tail;
    lemma_str_round_trip(name, body);
    assert(s.skip(1) =~= enc_str(name) + body);
    let hn = 1 + enc_str(name).len() as int;
    assert(s.skip(hn) =~= enc_entries(es) + seq![TAG_END] + tail);
    lemma_entries_round_trip(es, tail, (MAX_DEPTH - 1) as nat);
}

/// An empty compound: a lone end marker decodes to the empty map,
/// consuming exactly one byte — nothing past the end marker is read.
pub proof fn lemma_empty_compound(tail: Seq<u8>, d: nat)
    ensures
        sp_entries(seq![TAG_END] + tail, d) == Ok::<_, Error>(
            (Seq::<(Seq<char>, ValueSpec)>::empty(), 1int),
        ),
{
    let s = seq![TAG_END] + tail;
    assert(s[0] == TAG_END);
}

/// A list declared with length zero yields no elements and consumes
/// exactly the element tag and the four length bytes, whatever the
/// declared element tag was.
pub proof fn lemma_empty_list(t: u8, tail: Seq<u8>, d: nat)
    requires
        d >= 1,
    ensures
        sp_value(seq![t, 0u8, 0u8, 0u8, 0u8] + tail, TAG_LIST, d) == Ok::<_, Error>(
            (ValueSpec::List(t, Seq::empty()), 5int),
        ),
{
    let s = seq![t, 0u8, 0u8, 0u8, 0u8] + tail;
    assert(s.subrange(1, 5) =~= seq![0u8, 0u8, 0u8, 0u8]);
    let z = seq![0u8, 0u8, 0u8, 0u8];
    let z1 = seq![0u8];
    let z2 = seq![0u8, 0u8];
    let z3 = seq![0u8, 0u8, 0u8];
    assert(z1.drop_last() =~= Seq::<u8>::empty());
    assert(be_nat(Seq::<u8>::empty()) == 0);
    assert(z2.drop_last() =~= z1);
    assert(z3.drop_last() =~= z2);
    assert(z.drop_last() =~= z3);
    assert(be_nat(z1) == 0);
    assert(be_nat(z2) == 0);
    assert(be_nat(z3) == 0);
    assert(be_nat(z) == 0);
    assert(s[0] == t);
    assert(s.len() >= 5);
}

} // verus!
