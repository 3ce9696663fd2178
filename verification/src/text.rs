//! JSON string escaping over bytes, and helpers for fixed ASCII tokens.
//!
//! All text handled by this crate is kept as UTF-8 bytes.  Escaping only ever
//! rewrites ASCII bytes (the quote, the backslash and the control range), so
//! working byte by byte agrees with escaping character by character.

use vstd::prelude::*;

verus! {

pub use vstd::string::StringSliceAdditionalSpecFns;

/// The lower-case hex digit for a value below 16.
pub open spec fn hex_digit(d: u8) -> u8 {
    if d < 10 {
        ('0' as u8 + d) as u8
    } else {
        ('a' as u8 + (d - 10)) as u8
    }
}

/// How one byte of a string appears inside a JSON string literal: the quote
/// and the backslash are escaped, the common control characters get their
/// short escapes, the rest of the control range is written as `\u00XX`, and
/// every other byte stands for itself.
pub open spec fn esc_byte(b: u8) -> Seq<u8> {
    if b == '"' as u8 {
        seq!['\\' as u8, '"' as u8]
    } else if b == '\\' as u8 {
        seq!['\\' as u8, '\\' as u8]
    } else if b == 0x08 {
        seq!['\\' as u8, 'b' as u8]
    } else if b == 0x09 {
        seq!['\\' as u8, 't' as u8]
    } else if b == 0x0a {
        seq!['\\' as u8, 'n' as u8]
    } else if b == 0x0c {
        seq!['\\' as u8, 'f' as u8]
    } else if b == 0x0d {
        seq!['\\' as u8, 'r' as u8]
    } else if b < 0x20 {
        seq!['\\' as u8, 'u' as u8, '0' as u8, '0' as u8, hex_digit(b / 16), hex_digit(b % 16)]
    } else {
        seq![b]
    }
}

/// A whole byte string escaped for use inside a JSON string literal.
pub open spec fn esc_all(s: Seq<u8>) -> Seq<u8>
    decreases s.len(),
{
    if s.len() == 0 {
        Seq::empty()
    } else {
        esc_byte(s[0]) + esc_all(s.drop_first())
    }
}

/// A byte string rendered as a JSON string literal, quotes included.
pub open spec fn render_string(s: Seq<u8>) -> Seq<u8> {
    seq!['"' as u8] + esc_all(s) + seq!['"' as u8]
}

pub proof fn lemma_esc_all_append(a: Seq<u8>, b: Seq<u8>)
    ensures
        esc_all(a + b) == esc_all(a) + esc_all(b),
    decreases a.len(),
{
    if a.len() == 0 {
        assert(a + b =~= b);
        assert(esc_all(a) + esc_all(b) =~= esc_all(b));
    } else {
        assert((a + b).drop_first() =~= a.drop_first() + b);
        lemma_esc_all_append(a.drop_first(), b);
        assert(esc_all(a + b) =~= esc_all(a) + esc_all(b));
    }
}

pub proof fn lemma_esc_all_take_step(s: Seq<u8>, i: int)
    requires
        0 <= i < s.len(),
    ensures
        esc_all(s.take(i + 1)) == esc_all(s.take(i)) + esc_byte(s[i]),
{
    assert(s.take(i + 1) =~= s.take(i) + seq![s[i]]);
    lemma_esc_all_append(s.take(i), seq![s[i]]);
    let single = seq![s[i]];
    assert(single.len() == 1 && single[0] == s[i]);
    assert(single.drop_first() =~= Seq::<u8>::empty());
    assert(esc_all(Seq::<u8>::empty()) == Seq::<u8>::empty());
    assert(esc_all(single) == esc_byte(s[i]) + esc_all(single.drop_first()));
    assert(esc_byte(s[i]) + Seq::<u8>::empty() =~= esc_byte(s[i]));
}

/// An exact copy of a byte buffer.
pub fn copy_bytes(v: &Vec<u8>) -> (r: Vec<u8>)
    ensures
        r@ == v@,
{
    vstd::slice::slice_to_vec(v.as_slice())
}

/// The UTF-8 bytes of a fixed token, as a fresh buffer.
pub fn token_vec(s: &str) -> (r: Vec<u8>)
    ensures
        r@ == s.spec_bytes(),
{
    vstd::slice::slice_to_vec(s.as_bytes())
}

/// Append the UTF-8 bytes of a fixed token to the output buffer.
pub fn push_token(out: &mut Vec<u8>, s: &str)
    ensures
        final(out)@ == old(out)@ + s.spec_bytes(),
{
    let bytes: &[u8] = s.as_bytes();
    let mut tail: Vec<u8> = vstd::slice::slice_to_vec(bytes);
    out.append(&mut tail);
}

/// Append one byte, escaped as it appears inside a JSON string literal.
pub fn push_escaped_byte(out: &mut Vec<u8>, b: u8)
    ensures
        final(out)@ == old(out)@ + esc_byte(b),
{
    if b == '"' as u8 {
        out.push('\\' as u8);
        out.push('"' as u8);
    } else if b == '\\' as u8 {
        out.push('\\' as u8);
        out.push('\\' as u8);
    } else if b == 0x08 {
        out.push('\\' as u8);
        out.push('b' as u8);
    } else if b == 0x09 {
        out.push('\\' as u8);
        out.push('t' as u8);
    } else if b == 0x0a {
        out.push('\\' as u8);
        out.push('n' as u8);
    } else if b == 0x0c {
        out.push('\\' as u8);
        out.push('f' as u8);
    } else if b == 0x0d {
        out.push('\\' as u8);
        out.push('r' as u8);
    } else if b < 0x20 {
        out.push('\\' as u8);
        out.push('u' as u8);
        out.push('0' as u8);
        out.push('0' as u8);
        let hi: u8 = b / 16;
        let lo: u8 = b % 16;
        out.push(if hi < 10 { '0' as u8 + hi } else { 'a' as u8 + (hi - 10) });
        out.push(if lo < 10 { '0' as u8 + lo } else { 'a' as u8 + (lo - 10) });
    } else {
        out.push(b);
    }
    proof {
        assert(out@ =~= old(out)@ + esc_byte(b));
    }
}

/// Append a whole JSON string literal, quotes included.
pub fn push_string(out: &mut Vec<u8>, s: &Vec<u8>)
    ensures
        final(out)@ == old(out)@ + render_string(s@),
{
    out.push('"' as u8);
    let ghost mid = out@;
    let mut i: usize = 0;
    while i < s.len()
        invariant
            i <= s@.len(),
            out@ == mid + esc_all(s@.take(i as int)),
        decreases s@.len() - i,
    {
        proof {
            lemma_esc_all_take_step(s@, i as int);
        }
        push_escaped_byte(out, s[i]);
        i = i + 1;
    }
    proof {
        assert(s@.take(s@.len() as int) =~= s@);
    }
    out.push('"' as u8);
    proof {
        assert(out@ =~= old(out)@ + render_string(s@));
    }
}

} // verus!
