//! The field visitor: typed callbacks that append an event's fields to the
//! open document object.
//!
//! One callback exists for each supported value category.  Every callback
//! appends exactly one entry (error-like values may append two), under the
//! exact key it was given, and nothing else; `finish` releases the writer.
//! A visitor is single-use: it owns the open object for the duration of one
//! event's fields.

use vstd::prelude::*;
use crate::doc::{FieldEntry, JsonObject, JsonVal, Scalar, TopEntry, TopV, TopVal, TopValue};
use crate::num::{check_number_text, is_number_text};
use crate::text::{copy_bytes, push_token, StringSliceAdditionalSpecFns};

verus! {

/// The model of a scalar entry appended at top level.
pub open spec fn scalar_entry(key: Seq<u8>, v: JsonVal) -> TopV {
    TopV { key, value: TopVal::Scalar(v) }
}

/// The value recorded for a pre-rendered floating-point field: valid number
/// text stands as a number, the text `null` (how a non-finite value arrives)
/// becomes JSON null, and anything else is kept as a string so that no field
/// is ever dropped.
pub open spec fn float_value(t: Seq<u8>) -> JsonVal {
    if is_number_text(t) {
        JsonVal::Num(t)
    } else if t == "null".spec_bytes() {
        JsonVal::Null
    } else {
        JsonVal::Text(t)
    }
}

/// The suffix under which an error's cause chain is recorded.
pub open spec fn sources_suffix() -> Seq<u8> {
    ".sources".spec_bytes()
}

/// A typed accumulator for an event's fields, writing into the still-open
/// document object.
pub struct FieldVisitor {
    obj: JsonObject,
}

impl View for FieldVisitor {
    type V = Seq<TopV>;

    closed spec fn view(&self) -> Seq<TopV> {
        self.obj@
    }
}

impl FieldVisitor {
    /// Take over the open object for the duration of the field callbacks.
    pub fn new(obj: JsonObject) -> (r: Self)
        ensures
            r@ == obj@,
    {
        FieldVisitor { obj }
    }

    /// Record a signed integer field.
    pub fn record_i64(&mut self, key: Vec<u8>, value: i64)
        ensures
            final(self)@ == old(self)@.push(scalar_entry(key@, JsonVal::Int(value))),
    {
        self.obj.push(TopEntry { key, value: TopValue::Scalar(Scalar::Int(value)) });
    }

    /// Record an unsigned integer field.
    pub fn record_u64(&mut self, key: Vec<u8>, value: u64)
        ensures
            final(self)@ == old(self)@.push(scalar_entry(key@, JsonVal::UInt(value))),
    {
        self.obj.push(TopEntry { key, value: TopValue::Scalar(Scalar::UInt(value)) });
    }

    /// Record a boolean field.
    pub fn record_bool(&mut self, key: Vec<u8>, value: bool)
        ensures
            final(self)@ == old(self)@.push(scalar_entry(key@, JsonVal::Bool(value))),
    {
        self.obj.push(TopEntry { key, value: TopValue::Scalar(Scalar::Bool(value)) });
    }

    /// Record a string field.
    pub fn record_str(&mut self, key: Vec<u8>, value: Vec<u8>)
        ensures
            final(self)@ == old(self)@.push(scalar_entry(key@, JsonVal::Text(value@))),
    {
        self.obj.push(TopEntry { key, value: TopValue::Scalar(Scalar::Text(value)) });
    }

    /// Record a value that has no dedicated callback, already rendered to
    /// its debug text; it is kept as a string rather than dropped.
    pub fn record_debug(&mut self, key: Vec<u8>, value: Vec<u8>)
        ensures
            final(self)@ == old(self)@.push(scalar_entry(key@, JsonVal::Text(value@))),
    {
        self.obj.push(TopEntry { key, value: TopValue::Scalar(Scalar::Text(value)) });
    }

    /// Record a floating-point field from its pre-rendered text.
    pub fn record_float_text(&mut self, key: Vec<u8>, value: Vec<u8>)
        ensures
            final(self)@ == old(self)@.push(scalar_entry(key@, float_value(value@))),
    {
        if check_number_text(&value) {
            self.obj.push(TopEntry { key, value: TopValue::Scalar(Scalar::Num(value)) });
        } else if is_null_text(&value) {
            self.obj.push(TopEntry { key, value: TopValue::Scalar(Scalar::Null) });
        } else {
            self.obj.push(TopEntry { key, value: TopValue::Scalar(Scalar::Text(value)) });
        }
    }

    /// Record an error-like field: its message as a string under the key
    /// itself and, when causes exist, their messages, outermost first, as an
    /// array of strings under the key with the `.sources` suffix.
    pub fn record_error(&mut self, key: Vec<u8>, message: Vec<u8>, sources: Vec<Vec<u8>>)
        ensures
            sources@.len() == 0 ==> final(self)@ == old(self)@.push(
                scalar_entry(key@, JsonVal::Text(message@)),
            ),
            sources@.len() > 0 ==> final(self)@ == old(self)@.push(
                scalar_entry(key@, JsonVal::Text(message@)),
            ).push(scalar_entry(key@ + sources_suffix(), JsonVal::TextList(sources.deep_view()))),
    {
        let has_sources = sources.len() > 0;
        let mut chain_key: Vec<u8> = Vec::new();
        if has_sources {
            chain_key = key.clone();
            push_token(&mut chain_key, ".sources");
        }
        self.obj.push(TopEntry { key, value: TopValue::Scalar(Scalar::Text(message)) });
        if has_sources {
            self.obj.push(TopEntry { key: chain_key, value: TopValue::Scalar(Scalar::TextList(sources)) });
        }
    }

    /// Record an already-typed field as it stands.
    pub fn record_entry(&mut self, e: &FieldEntry)
        ensures
            final(self)@ == old(self)@.push(scalar_entry(e.key@, e.value@)),
    {
        let key = copy_bytes(&e.key);
        let value = copy_scalar(&e.value);
        self.obj.push(TopEntry { key, value: TopValue::Scalar(value) });
    }

    /// Release the document object after the last callback.
    pub fn finish(self) -> (r: JsonObject)
        ensures
            r@ == self@,
    {
        self.obj
    }
}

/// An exact copy of a scalar value.
fn copy_scalar(v: &Scalar) -> (r: Scalar)
    ensures
        r@ == v@,
{
    match v {
        Scalar::Null => Scalar::Null,
        Scalar::Bool(b) => Scalar::Bool(*b),
        Scalar::Int(n) => Scalar::Int(*n),
        Scalar::UInt(n) => Scalar::UInt(*n),
        Scalar::Num(t) => Scalar::Num(copy_bytes(t)),
        Scalar::Text(t) => Scalar::Text(copy_bytes(t)),
        Scalar::TextList(l) => {
            let mut items: Vec<Vec<u8>> = Vec::new();
            let mut k: usize = 0;
            while k < l.len()
                invariant
                    k <= l@.len(),
                    items.deep_view() == l.deep_view().take(k as int),
                decreases l@.len() - k,
            {
                let ghost pre = items.deep_view();
                items.push(copy_bytes(&l[k]));
                proof {
                    let dv = l.deep_view();
                    assert(dv[k as int] == l@[k as int]@);
                    assert(items.deep_view() =~~= pre.push(dv[k as int]));
                    assert(dv.take(k + 1) =~~= pre.push(dv[k as int]));
                }
                k = k + 1;
            }
            proof {
                assert(l.deep_view().take(l@.len() as int) =~~= l.deep_view());
                assert(items.deep_view() =~~= l.deep_view());
            }
            Scalar::TextList(items)
        },
    }
}

/// Whether the bytes read exactly `null`.
fn is_null_text(v: &Vec<u8>) -> (r: bool)
    ensures
        r == (v@ == "null".spec_bytes()),
{
    proof {
        reveal_strlit("null");
        vstd::utf8::is_ascii_chars_encode_utf8("null"@);
        assert(vstd::utf8::is_ascii_chars("null"@)) by {
            assert(forall|i: int| 0 <= i < "null"@.len() ==> '\0' <= #[trigger] "null"@[i]
                <= '\u{7f}');
        }
    }
    let r = v.len() == 4 && v[0] == 'n' as u8 && v[1] == 'u' as u8 && v[2] == 'l' as u8 && v[3]
        == 'l' as u8;
    proof {
        assert("null".spec_bytes().len() == 4);
        assert("null".spec_bytes()[0] == 'n' as u8);
        assert("null".spec_bytes()[1] == 'u' as u8);
        assert("null".spec_bytes()[2] == 'l' as u8);
        assert("null".spec_bytes()[3] == 'l' as u8);
        if r {
            assert(v@ =~= "null".spec_bytes());
        }
    }
    r
}

} // verus!
