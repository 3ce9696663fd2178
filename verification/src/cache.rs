//! The span field cache: one pre-rendered fragment per span.
//!
//! When a span is created, its fields are rendered once into a JSON object
//! fragment and stored under the span's identity; the fragment is read-only
//! thereafter and is merged into every event emitted while the span is
//! current.  The cache is an explicit owned mapping rather than hidden
//! side-table state.

use vstd::prelude::*;
use crate::doc::{push_object, render_object, FieldEntry};
use crate::text::copy_bytes;

verus! {

/// The fragment stored for a span: its fields rendered as one JSON object,
/// by the same rendering rules the document itself uses.
pub fn format_span_fields(fields: &Vec<FieldEntry>) -> (r: Vec<u8>)
    ensures
        r@ == render_object(fields.deep_view()),
{
    let mut out: Vec<u8> = Vec::new();
    push_object(&mut out, fields);
    proof {
        assert(out@ =~= render_object(fields.deep_view()));
    }
    out
}

/// The first fragment recorded under an identity, newest recording first.
pub open spec fn spec_lookup(entries: Seq<(u64, Vec<u8>)>, id: u64) -> Option<Seq<u8>>
    decreases entries.len(),
{
    if entries.len() == 0 {
        None
    } else if entries[0].0 == id {
        Some(entries[0].1@)
    } else {
        spec_lookup(entries.drop_first(), id)
    }
}

/// A mapping from span identity to that span's cached field fragment.
pub struct SpanCache {
    entries: Vec<(u64, Vec<u8>)>,
}

impl SpanCache {
    /// The fragment the cache holds for an identity, if any.
    pub closed spec fn fragment_of(&self, id: u64) -> Option<Seq<u8>> {
        spec_lookup(self.entries@, id)
    }

    /// An empty cache.
    pub fn new() -> (r: Self)
        ensures
            forall|id: u64| r.fragment_of(id) == Option::<Seq<u8>>::None,
    {
        let r = SpanCache { entries: Vec::new() };
        proof {
            assert(r.entries@.len() == 0);
        }
        r
    }

    /// Record a span's fragment under its identity.  A fresh recording wins
    /// over any earlier one; every other identity keeps its fragment.
    pub fn record(&mut self, id: u64, fragment: Vec<u8>)
        ensures
            final(self).fragment_of(id) == Some(fragment@),
            forall|other: u64|
                other != id ==> final(self).fragment_of(other) == old(self).fragment_of(other),
    {
        let ghost frag = fragment@;
        let ghost before = self.entries@;
        self.entries.insert(0, (id, fragment));
        proof {
            assert(self.entries@.drop_first() =~= before);
        }
    }

    /// Look up the fragment cached for an identity.
    pub fn lookup(&self, id: u64) -> (r: Option<Vec<u8>>)
        ensures
            match (r, self.fragment_of(id)) {
                (Some(v), Some(sv)) => v@ == sv,
                (None, None) => true,
                _ => false,
            },
    {
        proof {
            assert(self.entries@.skip(0) =~= self.entries@);
        }
        let mut k: usize = 0;
        while k < self.entries.len()
            invariant
                k <= self.entries@.len(),
                spec_lookup(self.entries@.skip(k as int), id) == self.fragment_of(id),
            decreases self.entries@.len() - k,
        {
            let ghost rest = self.entries@.skip(k as int);
            if self.entries[k].0 == id {
                proof {
                    assert(rest[0] == self.entries@[k as int]);
                }
                return Some(copy_bytes(&self.entries[k].1));
            }
            proof {
                assert(rest.drop_first() =~= self.entries@.skip(k + 1));
            }
            k = k + 1;
        }
        proof {
            assert(self.entries@.skip(self.entries@.len() as int).len() == 0);
        }
        None
    }
}

} // verus!
