//! The dynamic value tree that decoding produces.
//!
//! [`Value`] is the executable twin of the model's
//! [`crate::model::ValueSpec`]: Vec for Seq, String for Seq<char>, and raw
//! bits for the two floating-point shapes. [`deep`] maps one to the other;
//! the decoder's contracts all speak of `deep` of what they return.

use vstd::prelude::*;
use crate::model::ValueSpec;

verus! {

broadcast use vstd::seq::axiom_seq_index_decreases, vstd::seq::axiom_seq_subrange_decreases, vstd::std_specs::vec::axiom_vec_decreases_to_view;

/// One decoded NBT value. Float and Double carry their raw IEEE-754 bits,
/// so the tree itself stays free of floating point.
pub enum Value {
    Byte(i8),
    Short(i16),
    Int(i32),
    Long(i64),
    Float(u32),
    Double(u64),
    ByteArray(Vec<i8>),
    Text(String),
    List(u8, Vec<Value>),
    Compound(Vec<(String, Value)>),
    IntArray(Vec<i32>),
    LongArray(Vec<i64>),
}

/// The mathematical tree this value stands for.
pub open spec fn deep(v: Value) -> ValueSpec
    decreases v, 1int,
{
    match v {
        Value::Byte(x) => ValueSpec::Byte(x),
        Value::Short(x) => ValueSpec::Short(x),
        Value::Int(x) => ValueSpec::Int(x),
        Value::Long(x) => ValueSpec::Long(x),
        Value::Float(b) => ValueSpec::Float(b),
        Value::Double(b) => ValueSpec::Double(b),
        Value::ByteArray(bs) => ValueSpec::ByteArray(bs@),
        Value::Text(s) => ValueSpec::Text(s@),
        Value::List(t, es) => ValueSpec::List(t, deep_elems(es@)),
        Value::Compound(es) => ValueSpec::Compound(deep_entries(es@)),
        Value::IntArray(xs) => ValueSpec::IntArray(xs@),
        Value::LongArray(xs) => ValueSpec::LongArray(xs@),
    }
}

/// Elementwise [`deep`] of a list's elements.
pub open spec fn deep_elems(es: Seq<Value>) -> Seq<ValueSpec>
    decreases es, 0int,
{
    if es.len() == 0 {
        Seq::empty()
    } else {
        seq![deep(es[0])] + deep_elems(es.drop_first())
    }
}

/// Entrywise [`deep`] of a compound's entries.
pub open spec fn deep_entries(es: Seq<(String, Value)>) -> Seq<(Seq<char>, ValueSpec)>
    decreases es, 0int,
{
    if es.len() == 0 {
        Seq::empty()
    } else {
        seq![(es[0].0@, deep(es[0].1))] + deep_entries(es.drop_first())
    }
}

/// `deep_elems` acts pointwise.
pub proof fn lemma_deep_elems(es: Seq<Value>)
    ensures
        deep_elems(es).len() == es.len(),
        forall|i: int| 0 <= i < es.len() ==> deep_elems(es)[i] == deep(es[i]),
    decreases es.len(),
{
    if es.len() > 0 {
        lemma_deep_elems(es.drop_first());
    }
}

/// `deep_entries` acts pointwise.
pub proof fn lemma_deep_entries(es: Seq<(String, Value)>)
    ensures
        deep_entries(es).len() == es.len(),
        forall|i: int|
            0 <= i < es.len() ==> deep_entries(es)[i] == (es[i].0@, deep(es[i].1)),
    decreases es.len(),
{
    if es.len() > 0 {
        lemma_deep_entries(es.drop_first());
    }
}

/// Appending an element commutes with [`deep_elems`].
pub proof fn lemma_deep_elems_push(es: Seq<Value>, v: Value)
    ensures
        deep_elems(es.push(v)) == deep_elems(es).push(deep(v)),
{
    lemma_deep_elems(es.push(v));
    lemma_deep_elems(es);
    assert(deep_elems(es.push(v)) =~= deep_elems(es).push(deep(v)));
}

/// Appending an entry commutes with [`deep_entries`].
pub proof fn lemma_deep_entries_push(es: Seq<(String, Value)>, k: String, v: Value)
    ensures
        deep_entries(es.push((k, v))) == deep_entries(es).push((k@, deep(v))),
{
    lemma_deep_entries(es.push((k, v)));
    lemma_deep_entries(es);
    assert(deep_entries(es.push((k, v))) =~= deep_entries(es).push((k@, deep(v))));
}

} // verus!
