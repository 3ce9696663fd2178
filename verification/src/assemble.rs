//! The document assembler: one finished JSON log line per event.
//!
//! Given an event's metadata, the current span context and the event's
//! fields, the assembler opens one JSON object, writes the fixed envelope
//! (time, severity, logger, source location), merges in the current span's
//! cached fields when span logging is enabled, appends the event's own
//! fields, and seals the line with a trailing newline.  The contracts pin
//! the emitted bytes down exactly; the only failure is a missing or
//! malformed span cache, reported as a serialization error so the event is
//! dropped rather than the caller crashed.

use vstd::prelude::*;
use crate::clock::rfc3339_now;
use crate::doc::{
    FieldEntry, FieldV, JsonObject, JsonVal, Scalar, TopEntry, TopV, TopVal, TopValue,
    render_document,
};
use crate::laws::{lemma_document_round_trip, normalize_tops};
use crate::parse::{fragment_fields, p_document, parse_fragment};
use crate::severity::{severity_bytes, severity_text, Level};
use crate::text::{copy_bytes, token_vec, StringSliceAdditionalSpecFns};
use crate::visitor::{scalar_entry, FieldVisitor};

verus! {

/// The error taxonomy: writing into the text buffer, JSON encoding or
/// decoding, timestamp formatting, and the sink's write.
#[derive(Clone, Copy, Debug, PartialEq, Eq, Structural)]
pub enum Error {
    Formatting,
    Serialization,
    Time,
    Io,
}

/// The current span as handed to the assembler: its name, and the cached
/// field fragment from the span-entry hook if that hook ran.
pub struct SpanInfo {
    pub name: Vec<u8>,
    pub fields: Option<Vec<u8>>,
}

/// The bytes of an optional value.
pub open spec fn opt_bytes(o: Option<Vec<u8>>) -> Option<Seq<u8>> {
    match o {
        Some(v) => Some(v@),
        None => None,
    }
}

/// The source file entry: the file's name, or null when absent.
pub open spec fn file_val(file: Option<Seq<u8>>) -> JsonVal {
    match file {
        Some(f) => JsonVal::Text(f),
        None => JsonVal::Null,
    }
}

/// The source line entry: the line number, or null when absent.
pub open spec fn line_val(line: Option<u32>) -> JsonVal {
    match line {
        Some(n) => JsonVal::UInt(n as u64),
        None => JsonVal::Null,
    }
}

/// The four fixed envelope entries, in required order: `time`, `severity`,
/// `logger`, and the source location object with its optional `file` and
/// `line` members.
pub open spec fn envelope(
    time: Seq<u8>,
    level: Level,
    logger: Seq<u8>,
    file: Option<Seq<u8>>,
    line: Option<u32>,
) -> Seq<TopV> {
    seq![
        scalar_entry("time".spec_bytes(), JsonVal::Text(time)),
        scalar_entry("severity".spec_bytes(), JsonVal::Text(severity_text(level))),
        scalar_entry("logger".spec_bytes(), JsonVal::Text(logger)),
        TopV {
            key: "logging.googleapis.com/sourceLocation".spec_bytes(),
            value: TopVal::Object(
                seq![
                    FieldV { key: "file".spec_bytes(), value: file_val(file) },
                    FieldV { key: "line".spec_bytes(), value: line_val(line) },
                ],
            ),
        },
    ]
}

/// The `span` entry: the span's cached fields in recorded order, then the
/// span's name under `name` (a later write, so it wins over any cached
/// field of that key).
pub open spec fn span_entry(name: Seq<u8>, cached: Seq<FieldV>) -> TopV {
    TopV {
        key: "span".spec_bytes(),
        value: TopVal::Object(
            cached.push(FieldV { key: "name".spec_bytes(), value: JsonVal::Text(name) }),
        ),
    }
}

/// The event's own fields as top-level entries, in recorded order.
pub open spec fn field_entries(fields: Seq<FieldV>) -> Seq<TopV> {
    fields.map_values(|f: FieldV| scalar_entry(f.key, f.value))
}

/// The whole document's entries: envelope, then the span entry when one is
/// merged in, then the event's fields.
pub open spec fn document_model(
    time: Seq<u8>,
    level: Level,
    logger: Seq<u8>,
    file: Option<Seq<u8>>,
    line: Option<u32>,
    span: Option<(Seq<u8>, Seq<FieldV>)>,
    fields: Seq<FieldV>,
) -> Seq<TopV> {
    let env = envelope(time, level, logger, file, line);
    let with_span = match span {
        Some((n, fs)) => env.push(span_entry(n, fs)),
        None => env,
    };
    with_span + field_entries(fields)
}

/// The finished line: the rendered document object and a trailing newline.
pub open spec fn document_bytes(
    time: Seq<u8>,
    level: Level,
    logger: Seq<u8>,
    file: Option<Seq<u8>>,
    line: Option<u32>,
    span: Option<(Seq<u8>, Seq<FieldV>)>,
    fields: Seq<FieldV>,
) -> Seq<u8> {
    render_document(document_model(time, level, logger, file, line, span, fields)) + seq![
        '\n' as u8,
    ]
}

/// The document assembler.  `log_span` says whether the current span's
/// cached fields are merged into each line.
pub struct Assembler {
    pub log_span: bool,
}

impl Assembler {
    /// An assembler with span logging off.
    pub fn new() -> (r: Self)
        ensures
            !r.log_span,
    {
        Assembler { log_span: false }
    }

    /// An assembler with span logging as chosen.
    pub fn with_span_logging(log_span: bool) -> (r: Self)
        ensures
            r.log_span == log_span,
    {
        Assembler { log_span }
    }

    /// Open a document and write the envelope, merging in the current
    /// span's cached fields when span logging is enabled.  The returned
    /// object is still open: the event's fields are appended through a
    /// `FieldVisitor` and the line is sealed by `close_document`.  A
    /// missing or malformed span cache is the one failure: the document is
    /// refused with a serialization error.
    pub fn open_document(
        &self,
        time: &Vec<u8>,
        level: Level,
        logger: &Vec<u8>,
        file: &Option<Vec<u8>>,
        line: Option<u32>,
        span: Option<&SpanInfo>,
    ) -> (r: Result<JsonObject, Error>)
        ensures
            !(self.log_span && span.is_some()) ==> (r matches Ok(obj) && obj@ == envelope(
                time@,
                level,
                logger@,
                opt_bytes(*file),
                line,
            )),
            self.log_span && span.is_some() ==> (match span {
                Some(si) => match si.fields {
                    Some(frag) => match fragment_fields(frag@) {
                        Some(fs) => r matches Ok(obj) && obj@ == envelope(
                            time@,
                            level,
                            logger@,
                            opt_bytes(*file),
                            line,
                        ).push(span_entry(si.name@, fs)),
                        None => r matches Err(e) && e == Error::Serialization,
                    },
                    None => r matches Err(e) && e == Error::Serialization,
                },
                None => false,
            }),
    {
        let ghost env = envelope(time@, level, logger@, opt_bytes(*file), line);
        let mut obj = JsonObject::new();
        obj.push(
            TopEntry { key: token_vec("time"), value: TopValue::Scalar(Scalar::Text(copy_bytes(time))) },
        );
        obj.push(
            TopEntry {
                key: token_vec("severity"),
                value: TopValue::Scalar(Scalar::Text(severity_bytes(&level))),
            },
        );
        obj.push(
            TopEntry {
                key: token_vec("logger"),
                value: TopValue::Scalar(Scalar::Text(copy_bytes(logger))),
            },
        );
        let mut loc: Vec<FieldEntry> = Vec::new();
        let file_scalar = match file {
            Some(f) => Scalar::Text(copy_bytes(f)),
            None => Scalar::Null,
        };
        loc.push(FieldEntry { key: token_vec("file"), value: file_scalar });
        let line_scalar = match line {
            Some(n) => Scalar::UInt(n as u64),
            None => Scalar::Null,
        };
        loc.push(FieldEntry { key: token_vec("line"), value: line_scalar });
        proof {
            assert(loc.deep_view() =~= seq![
                FieldV { key: "file".spec_bytes(), value: file_val(opt_bytes(*file)) },
                FieldV { key: "line".spec_bytes(), value: line_val(line) },
            ]);
        }
        obj.push(
            TopEntry {
                key: token_vec("logging.googleapis.com/sourceLocation"),
                value: TopValue::Object(loc),
            },
        );
        proof {
            assert(obj@ =~= env);
        }
        if self.log_span {
            if let Some(si) = span {
                match &si.fields {
                    None => {
                        return Err(Error::Serialization);
                    },
                    Some(frag) => {
                        match parse_fragment(frag) {
                            None => {
                                return Err(Error::Serialization);
                            },
                            Some(cached_fields) => {
                                let mut span_fields = cached_fields;
                                let ghost cached = span_fields.deep_view();
                                span_fields.push(
                                    FieldEntry {
                                        key: token_vec("name"),
                                        value: Scalar::Text(copy_bytes(&si.name)),
                                    },
                                );
                                proof {
                                    assert(span_fields.deep_view() =~= cached.push(
                                        FieldV {
                                            key: "name".spec_bytes(),
                                            value: JsonVal::Text(si.name@),
                                        },
                                    ));
                                }
                                obj.push(
                                    TopEntry {
                                        key: token_vec("span"),
                                        value: TopValue::Object(span_fields),
                                    },
                                );
                                proof {
                                    assert(obj@ =~= env.push(span_entry(si.name@, cached)));
                                }
                            },
                        }
                    },
                }
            }
        }
        Ok(obj)
    }

    /// Assemble a whole line from pre-collected fields: open the document,
    /// replay every field through the field visitor, and seal the line.
    pub fn assemble(
        &self,
        time: &Vec<u8>,
        level: Level,
        logger: &Vec<u8>,
        file: &Option<Vec<u8>>,
        line: Option<u32>,
        span: Option<&SpanInfo>,
        fields: &Vec<FieldEntry>,
    ) -> (r: Result<Vec<u8>, Error>)
        ensures
            !(self.log_span && span.is_some()) ==> (r matches Ok(out) && out@ == document_bytes(
                time@,
                level,
                logger@,
                opt_bytes(*file),
                line,
                None,
                fields.deep_view(),
            )),
            self.log_span && span.is_some() ==> (match span {
                Some(si) => match si.fields {
                    Some(frag) => match fragment_fields(frag@) {
                        Some(fs) => r matches Ok(out) && out@ == document_bytes(
                            time@,
                            level,
                            logger@,
                            opt_bytes(*file),
                            line,
                            Some((si.name@, fs)),
                            fields.deep_view(),
                        ),
                        None => r matches Err(e) && e == Error::Serialization,
                    },
                    None => r matches Err(e) && e == Error::Serialization,
                },
                None => false,
            }),
    {
        let obj = match self.open_document(time, level, logger, file, line, span) {
            Ok(obj) => obj,
            Err(e) => {
                return Err(e);
            },
        };
        let ghost opened = obj@;
        let mut visitor = FieldVisitor::new(obj);
        let mut i: usize = 0;
        while i < fields.len()
            invariant
                i <= fields@.len(),
                visitor@ == opened + field_entries(fields.deep_view().take(i as int)),
            decreases fields@.len() - i,
        {
            visitor.record_entry(&fields[i]);
            proof {
                let dv = fields.deep_view();
                assert(dv[i as int] == fields@[i as int]@);
                assert(field_entries(dv.take(i + 1)) =~= field_entries(dv.take(i as int)).push(
                    scalar_entry(dv[i as int].key, dv[i as int].value),
                ));
                assert(visitor@ =~= opened + field_entries(dv.take(i + 1)));
            }
            i = i + 1;
        }
        proof {
            assert(fields.deep_view().take(fields@.len() as int) =~= fields.deep_view());
        }
        let closed = visitor.finish();
        Ok(close_document(closed))
    }

    /// Assemble with the current wall-clock time.  A failed time format
    /// degrades to an empty time value; it never fails the document.
    pub fn assemble_now(
        &self,
        level: Level,
        logger: &Vec<u8>,
        file: &Option<Vec<u8>>,
        line: Option<u32>,
        span: Option<&SpanInfo>,
        fields: &Vec<FieldEntry>,
    ) -> (r: Result<Vec<u8>, Error>)
        ensures
            !(self.log_span && span.is_some()) ==> (r matches Ok(out) && exists|t: Seq<u8>|
                out@ == document_bytes(
                    t,
                    level,
                    logger@,
                    opt_bytes(*file),
                    line,
                    None,
                    fields.deep_view(),
                )),
            self.log_span && span.is_some() ==> (match span {
                Some(si) => match si.fields {
                    Some(frag) => match fragment_fields(frag@) {
                        Some(fs) => r matches Ok(out) && exists|t: Seq<u8>|
                            out@ == document_bytes(
                                t,
                                level,
                                logger@,
                                opt_bytes(*file),
                                line,
                                Some((si.name@, fs)),
                                fields.deep_view(),
                            ),
                        None => r matches Err(e) && e == Error::Serialization,
                    },
                    None => r matches Err(e) && e == Error::Serialization,
                },
                None => false,
            }),
    {
        let time: Vec<u8> = match rfc3339_now() {
            Some(t) => t,
            None => Vec::new(),
        };
        let r = self.assemble(&time, level, logger, file, line, span, fields);
        proof {
            let t0 = time@;
            if !(self.log_span && span.is_some()) {
                assert(r matches Ok(out) ==> out@ == document_bytes(
                    t0,
                    level,
                    logger@,
                    opt_bytes(*file),
                    line,
                    None,
                    fields.deep_view(),
                ));
            }
        }
        r
    }
}

/// Seal the line: close the document object and append the newline.
pub fn close_document(obj: JsonObject) -> (r: Vec<u8>)
    ensures
        r@ == render_document(obj@) + seq!['\n' as u8],
{
    let ghost entries = obj@;
    let mut out = obj.close();
    out.push('\n' as u8);
    proof {
        assert(out@ =~= render_document(entries) + seq!['\n' as u8]);
    }
    out
}

/// Every line the assembler can emit is one JSON document and a trailing
/// newline: the document grammar accepts everything before the final byte,
/// whatever the event held.
pub proof fn lemma_line_is_valid_json(
    time: Seq<u8>,
    level: Level,
    logger: Seq<u8>,
    file: Option<Seq<u8>>,
    line: Option<u32>,
    span: Option<(Seq<u8>, Seq<FieldV>)>,
    fields: Seq<FieldV>,
)
    ensures
        ({
            let b = document_bytes(time, level, logger, file, line, span, fields);
            &&& b.len() > 0
            &&& b[b.len() - 1] == '\n' as u8
            &&& p_document(b.take(b.len() - 1)) == Some(
                normalize_tops(document_model(time, level, logger, file, line, span, fields)),
            )
        }),
{
    let m = document_model(time, level, logger, file, line, span, fields);
    lemma_document_round_trip(m);
    let r = render_document(m);
    let b = document_bytes(time, level, logger, file, line, span, fields);
    assert(b == r + seq!['\n' as u8]);
    assert(b.take(b.len() - 1) =~= r);
    assert(b[b.len() - 1] == '\n' as u8);
}

} // verus!
