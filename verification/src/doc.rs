//! The document model: the values a log line can hold, and their rendering.
//!
//! A log document is one JSON object.  Its entries carry either a scalar
//! value or a nested object of scalar-valued fields (the source location and
//! the span context).  The specification functions here define, byte for
//! byte, the JSON text that each value renders to; the executable renderers
//! are proved to emit exactly that text.

use vstd::prelude::*;
use crate::num::{dec_i64, dec_u64, is_number_text, check_number_text, push_i64, push_u64};
use crate::text::{push_string, push_token, render_string, StringSliceAdditionalSpecFns};

verus! {

/// The mathematical value of a scalar JSON entry.
pub enum JsonVal {
    Null,
    Bool(bool),
    Int(i64),
    UInt(u64),
    /// A pre-rendered number: text that satisfies the JSON number grammar.
    Num(Seq<u8>),
    Text(Seq<u8>),
    TextList(Seq<Seq<u8>>),
}

/// A scalar JSON value as executable data.
#[derive(Debug)]
pub enum Scalar {
    Null,
    Bool(bool),
    Int(i64),
    UInt(u64),
    /// A pre-rendered number, as handed in for floating-point fields.
    Num(Vec<u8>),
    Text(Vec<u8>),
    TextList(Vec<Vec<u8>>),
}

impl View for Scalar {
    type V = JsonVal;

    open spec fn view(&self) -> JsonVal {
        match self {
            Scalar::Null => JsonVal::Null,
            Scalar::Bool(b) => JsonVal::Bool(*b),
            Scalar::Int(n) => JsonVal::Int(*n),
            Scalar::UInt(n) => JsonVal::UInt(*n),
            Scalar::Num(t) => JsonVal::Num(t@),
            Scalar::Text(t) => JsonVal::Text(t@),
            Scalar::TextList(l) => JsonVal::TextList(l.deep_view()),
        }
    }
}

impl DeepView for Scalar {
    type V = JsonVal;

    open spec fn deep_view(&self) -> JsonVal {
        self.view()
    }
}

/// One field of an object: a key and a scalar value.
#[derive(Debug)]
pub struct FieldEntry {
    pub key: Vec<u8>,
    pub value: Scalar,
}

/// The mathematical value of one field.
pub struct FieldV {
    pub key: Seq<u8>,
    pub value: JsonVal,
}

impl View for FieldEntry {
    type V = FieldV;

    open spec fn view(&self) -> FieldV {
        FieldV { key: self.key@, value: self.value@ }
    }
}

impl DeepView for FieldEntry {
    type V = FieldV;

    open spec fn deep_view(&self) -> FieldV {
        self.view()
    }
}

/// A value of a top-level document entry: a scalar, or a nested object.
#[derive(Debug)]
pub enum TopValue {
    Scalar(Scalar),
    Object(Vec<FieldEntry>),
}

/// The mathematical value of a top-level entry's value.
pub enum TopVal {
    Scalar(JsonVal),
    Object(Seq<FieldV>),
}

impl View for TopValue {
    type V = TopVal;

    open spec fn view(&self) -> TopVal {
        match self {
            TopValue::Scalar(s) => TopVal::Scalar(s@),
            TopValue::Object(fs) => TopVal::Object(fs.deep_view()),
        }
    }
}

impl DeepView for TopValue {
    type V = TopVal;

    open spec fn deep_view(&self) -> TopVal {
        self.view()
    }
}

/// One top-level entry of the document.
#[derive(Debug)]
pub struct TopEntry {
    pub key: Vec<u8>,
    pub value: TopValue,
}

/// The mathematical value of one top-level entry.
pub struct TopV {
    pub key: Seq<u8>,
    pub value: TopVal,
}

impl View for TopEntry {
    type V = TopV;

    open spec fn view(&self) -> TopV {
        TopV { key: self.key@, value: self.value@ }
    }
}

impl DeepView for TopEntry {
    type V = TopV;

    open spec fn deep_view(&self) -> TopV {
        self.view()
    }
}

/// The rendering of a scalar value.  Pre-rendered numbers are emitted as
/// they stand only when they satisfy the number grammar; any other text in
/// their place falls back to a JSON string, so the document stays valid.
pub open spec fn render_scalar(v: JsonVal) -> Seq<u8> {
    match v {
        JsonVal::Null => "null".spec_bytes(),
        JsonVal::Bool(b) => if b {
            "true".spec_bytes()
        } else {
            "false".spec_bytes()
        },
        JsonVal::Int(n) => dec_i64(n as int),
        JsonVal::UInt(n) => dec_u64(n as nat),
        JsonVal::Num(t) => if is_number_text(t) {
            t
        } else {
            render_string(t)
        },
        JsonVal::Text(t) => render_string(t),
        JsonVal::TextList(l) => seq!['[' as u8] + render_text_items(l) + seq![']' as u8],
    }
}

/// The comma-separated renderings of the strings of an array.
pub open spec fn render_text_items(l: Seq<Seq<u8>>) -> Seq<u8>
    decreases l.len(),
{
    if l.len() == 0 {
        Seq::empty()
    } else if l.len() == 1 {
        render_string(l[0])
    } else {
        render_string(l[0]) + seq![',' as u8] + render_text_items(l.drop_first())
    }
}

/// The rendering of one field: quoted key, colon, value.
pub open spec fn render_field(f: FieldV) -> Seq<u8> {
    render_string(f.key) + seq![':' as u8] + render_scalar(f.value)
}

/// The comma-separated renderings of an object's fields.
pub open spec fn render_fields(fs: Seq<FieldV>) -> Seq<u8>
    decreases fs.len(),
{
    if fs.len() == 0 {
        Seq::empty()
    } else if fs.len() == 1 {
        render_field(fs[0])
    } else {
        render_field(fs[0]) + seq![',' as u8] + render_fields(fs.drop_first())
    }
}

/// The rendering of an object of scalar fields, braces included.
pub open spec fn render_object(fs: Seq<FieldV>) -> Seq<u8> {
    seq!['{' as u8] + render_fields(fs) + seq!['}' as u8]
}

/// The rendering of a top-level entry's value.
pub open spec fn render_top_value(v: TopVal) -> Seq<u8> {
    match v {
        TopVal::Scalar(s) => render_scalar(s),
        TopVal::Object(fs) => render_object(fs),
    }
}

/// The rendering of one top-level entry.
pub open spec fn render_top(e: TopV) -> Seq<u8> {
    render_string(e.key) + seq![':' as u8] + render_top_value(e.value)
}

/// The comma-separated renderings of the document's top-level entries.
pub open spec fn render_tops(es: Seq<TopV>) -> Seq<u8>
    decreases es.len(),
{
    if es.len() == 0 {
        Seq::empty()
    } else if es.len() == 1 {
        render_top(es[0])
    } else {
        render_top(es[0]) + seq![',' as u8] + render_tops(es.drop_first())
    }
}

/// The rendering of the whole document object, braces included.
pub open spec fn render_document(es: Seq<TopV>) -> Seq<u8> {
    seq!['{' as u8] + render_tops(es) + seq!['}' as u8]
}

pub proof fn lemma_render_text_items_push(l: Seq<Seq<u8>>, x: Seq<u8>)
    ensures
        render_text_items(l.push(x)) == if l.len() == 0 {
            render_string(x)
        } else {
            render_text_items(l) + seq![',' as u8] + render_text_items(seq![x])
        },
    decreases l.len(),
{
    let lp = l.push(x);
    assert(render_text_items(seq![x]) == render_string(x));
    if l.len() == 0 {
        assert(lp.len() == 1 && lp[0] == x);
    } else {
        assert(lp[0] == l[0]);
        assert(lp.drop_first() =~= l.drop_first().push(x));
        lemma_render_text_items_push(l.drop_first(), x);
        if l.len() == 1 {
            assert(render_text_items(l) == render_string(l[0]));
            assert(render_text_items(lp) =~= render_text_items(l) + seq![',' as u8] + render_string(x));
        } else {
            assert(render_text_items(lp) =~= render_text_items(l) + seq![',' as u8] + render_string(x));
        }
    }
}

pub proof fn lemma_render_fields_push(fs: Seq<FieldV>, x: FieldV)
    ensures
        render_fields(fs.push(x)) == if fs.len() == 0 {
            render_field(x)
        } else {
            render_fields(fs) + seq![',' as u8] + render_field(x)
        },
    decreases fs.len(),
{
    let fp = fs.push(x);
    if fs.len() == 0 {
        assert(fp.len() == 1 && fp[0] == x);
    } else {
        assert(fp[0] == fs[0]);
        assert(fp.drop_first() =~= fs.drop_first().push(x));
        lemma_render_fields_push(fs.drop_first(), x);
        assert(render_fields(fp) =~= render_fields(fs) + seq![',' as u8] + render_field(x));
    }
}

pub proof fn lemma_render_tops_push(es: Seq<TopV>, x: TopV)
    ensures
        render_tops(es.push(x)) == if es.len() == 0 {
            render_top(x)
        } else {
            render_tops(es) + seq![',' as u8] + render_top(x)
        },
    decreases es.len(),
{
    let ep = es.push(x);
    if es.len() == 0 {
        assert(ep.len() == 1 && ep[0] == x);
    } else {
        assert(ep[0] == es[0]);
        assert(ep.drop_first() =~= es.drop_first().push(x));
        lemma_render_tops_push(es.drop_first(), x);
        assert(render_tops(ep) =~= render_tops(es) + seq![',' as u8] + render_top(x));
    }
}

/// Append the rendering of a scalar value.
pub fn push_scalar(out: &mut Vec<u8>, v: &Scalar)
    ensures
        final(out)@ == old(out)@ + render_scalar(v@),
{
    match v {
        Scalar::Null => push_token(out, "null"),
        Scalar::Bool(b) => {
            if *b {
                push_token(out, "true");
            } else {
                push_token(out, "false");
            }
        },
        Scalar::Int(n) => push_i64(out, *n),
        Scalar::UInt(n) => push_u64(out, *n),
        Scalar::Num(t) => {
            if check_number_text(t) {
                let mut tail: Vec<u8> = t.clone();
                out.append(&mut tail);
            } else {
                push_string(out, t);
            }
        },
        Scalar::Text(t) => push_string(out, t),
        Scalar::TextList(l) => {
            out.push('[' as u8);
            let ghost mid = out@;
            let mut i: usize = 0;
            while i < l.len()
                invariant
                    i <= l@.len(),
                    out@ == mid + render_text_items(l.deep_view().take(i as int)),
                decreases l@.len() - i,
            {
                if i > 0 {
                    out.push(',' as u8);
                }
                push_string(out, &l[i]);
                proof {
                    let dv = l.deep_view();
                    assert(dv.len() == l@.len());
                    assert(dv[i as int] == l@[i as int]@);
                    assert(dv.take(i as int).push(dv[i as int]) =~= dv.take(i + 1));
                    lemma_render_text_items_push(dv.take(i as int), dv[i as int]);
                    assert(render_text_items(seq![dv[i as int]]) == render_string(dv[i as int]));
                    assert(out@ =~= mid + render_text_items(dv.take(i + 1)));
                }
                i = i + 1;
            }
            proof {
                assert(l.deep_view().take(l@.len() as int) =~= l.deep_view());
            }
            out.push(']' as u8);
            proof {
                assert(out@ =~= old(out)@ + render_scalar(v@));
            }
        },
    }
}

/// Append the rendering of one object field.
pub fn push_field(out: &mut Vec<u8>, f: &FieldEntry)
    ensures
        final(out)@ == old(out)@ + render_field(f@),
{
    push_string(out, &f.key);
    out.push(':' as u8);
    push_scalar(out, &f.value);
    proof {
        assert(out@ =~= old(out)@ + render_field(f@));
    }
}

/// Append the rendering of a whole object of scalar fields.
pub fn push_object(out: &mut Vec<u8>, fs: &Vec<FieldEntry>)
    ensures
        final(out)@ == old(out)@ + render_object(fs.deep_view()),
{
    out.push('{' as u8);
    let ghost mid = out@;
    let mut i: usize = 0;
    while i < fs.len()
        invariant
            i <= fs@.len(),
            out@ == mid + render_fields(fs.deep_view().take(i as int)),
        decreases fs@.len() - i,
    {
        if i > 0 {
            out.push(',' as u8);
        }
        push_field(out, &fs[i]);
        proof {
            let dv = fs.deep_view();
            assert(dv.len() == fs@.len());
            assert(dv[i as int] == fs@[i as int]@);
            assert(dv.take(i as int).push(dv[i as int]) =~= dv.take(i + 1));
            lemma_render_fields_push(dv.take(i as int), dv[i as int]);
            assert(out@ =~= mid + render_fields(dv.take(i + 1)));
        }
        i = i + 1;
    }
    proof {
        assert(fs.deep_view().take(fs@.len() as int) =~= fs.deep_view());
    }
    out.push('}' as u8);
    proof {
        assert(out@ =~= old(out)@ + render_object(fs.deep_view()));
    }
}

/// Append the rendering of a top-level entry's value.
pub fn push_top_value(out: &mut Vec<u8>, v: &TopValue)
    ensures
        final(out)@ == old(out)@ + render_top_value(v@),
{
    match v {
        TopValue::Scalar(s) => push_scalar(out, s),
        TopValue::Object(fs) => push_object(out, fs),
    }
}

/// An open JSON object writer: the document under construction.  Entries are
/// recorded in order and the object is rendered, in that order, when the
/// writer is closed.
pub struct JsonObject {
    entries: Vec<TopEntry>,
}

impl View for JsonObject {
    type V = Seq<TopV>;

    closed spec fn view(&self) -> Seq<TopV> {
        self.entries.deep_view()
    }
}

impl JsonObject {
    /// Open a fresh, empty object.
    pub fn new() -> (r: Self)
        ensures
            r@ == Seq::<TopV>::empty(),
    {
        let r = JsonObject { entries: Vec::new() };
        proof {
            assert(r@ =~= Seq::<TopV>::empty());
        }
        r
    }

    /// Record one more entry at the end of the object.
    pub fn push(&mut self, e: TopEntry)
        ensures
            final(self)@ == old(self)@.push(e@),
    {
        let ghost before = self@;
        let ghost ev = e@;
        self.entries.push(e);
        proof {
            assert(self@ =~= before.push(ev));
        }
    }

    /// Close the object: render every entry, in recording order, between
    /// braces.  This is the only way text leaves the writer, so the output
    /// is exactly the rendering of the recorded entries.
    pub fn close(self) -> (r: Vec<u8>)
        ensures
            r@ == render_document(self@),
    {
        let mut out: Vec<u8> = Vec::new();
        out.push('{' as u8);
        let ghost mid = out@;
        let JsonObject { entries } = self;
        let mut i: usize = 0;
        while i < entries.len()
            invariant
                i <= entries@.len(),
                mid == seq!['{' as u8],
                entries.deep_view() == self@,
                out@ == mid + render_tops(self@.take(i as int)),
            decreases entries@.len() - i,
        {
            if i > 0 {
                out.push(',' as u8);
            }
            let e = &entries[i];
            push_string(&mut out, &e.key);
            out.push(':' as u8);
            push_top_value(&mut out, &e.value);
            proof {
                let dv = self@;
                assert(dv[i as int] == entries@[i as int]@);
                assert(dv.take(i as int).push(dv[i as int]) =~= dv.take(i + 1));
                lemma_render_tops_push(dv.take(i as int), dv[i as int]);
                assert(out@ =~= mid + render_tops(dv.take(i + 1)));
            }
            i = i + 1;
        }
        proof {
            assert(self@.take(self@.len() as int) =~= self@);
        }
        out.push('}' as u8);
        proof {
            assert(out@ =~= render_document(self@));
        }
        out
    }
}

} // verus!
