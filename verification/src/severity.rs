//! Log levels and their fixed severity vocabulary.

use vstd::prelude::*;

verus! {

/// The level of a log event, from the fixed five-step vocabulary.
#[derive(Clone, Copy, Debug, PartialEq, Eq, Structural)]
pub enum Level {
    Trace,
    Debug,
    Info,
    Warn,
    Error,
}

/// The severity string for a level.  The mapping is total: every level has
/// exactly one severity, with no fallthrough case.
pub open spec fn severity_text(l: Level) -> Seq<u8> {
    match l {
        Level::Trace => seq!['T' as u8, 'R' as u8, 'A' as u8, 'C' as u8, 'E' as u8],
        Level::Debug => seq!['D' as u8, 'E' as u8, 'B' as u8, 'U' as u8, 'G' as u8],
        Level::Info => seq!['I' as u8, 'N' as u8, 'F' as u8, 'O' as u8],
        Level::Warn => seq!['W' as u8, 'A' as u8, 'R' as u8, 'N' as u8],
        Level::Error => seq!['E' as u8, 'R' as u8, 'R' as u8, 'O' as u8, 'R' as u8],
    }
}

/// The severity string mapping is injective: no two levels share a severity
/// string, so severities never collapse.
pub proof fn lemma_severity_injective(a: Level, b: Level)
    ensures
        severity_text(a) == severity_text(b) ==> a == b,
{
    if severity_text(a) == severity_text(b) && a != b {
        assert(severity_text(a)[0] == severity_text(b)[0]);
        assert(severity_text(a).len() == severity_text(b).len());
        assert(false);
    }
}

/// The severity string of a level, as bytes.
pub fn severity_bytes(l: &Level) -> (r: Vec<u8>)
    ensures
        r@ == severity_text(*l),
{
    let mut r: Vec<u8> = Vec::new();
    match l {
        Level::Trace => {
            r.push('T' as u8);
            r.push('R' as u8);
            r.push('A' as u8);
            r.push('C' as u8);
            r.push('E' as u8);
        },
        Level::Debug => {
            r.push('D' as u8);
            r.push('E' as u8);
            r.push('B' as u8);
            r.push('U' as u8);
            r.push('G' as u8);
        },
        Level::Info => {
            r.push('I' as u8);
            r.push('N' as u8);
            r.push('F' as u8);
            r.push('O' as u8);
        },
        Level::Warn => {
            r.push('W' as u8);
            r.push('A' as u8);
            r.push('R' as u8);
            r.push('N' as u8);
        },
        Level::Error => {
            r.push('E' as u8);
            r.push('R' as u8);
            r.push('R' as u8);
            r.push('O' as u8);
            r.push('R' as u8);
        },
    }
    proof {
        assert(r@ =~= severity_text(*l));
    }
    r
}

} // verus!
