//! A strict parser for cached span fragments.
//!
//! A span's fields are cached as the rendered JSON object produced by the
//! field visitor.  At event time that fragment is parsed back into entries
//! so the span's name can be merged in.  The grammar accepted here is
//! exactly the renderer's output format: an object of scalar fields with no
//! surrounding whitespace, strings in canonical escaping, numbers per the
//! JSON number grammar.  The specification functions define the parse
//! deterministically; the executable parser is proved to return exactly
//! what they describe, so success and failure are both pinned down.

use vstd::prelude::*;
use crate::doc::{FieldEntry, FieldV, JsonVal, Scalar, TopV, TopVal};
use crate::num::{is_digit, is_number_text, check_number_text};
use crate::text::StringSliceAdditionalSpecFns;

verus! {

/// The byte named by a short escape code, if the code is one of the seven.
pub open spec fn short_unescape(c: u8) -> Option<u8> {
    if c == '"' as u8 {
        Some('"' as u8)
    } else if c == '\\' as u8 {
        Some('\\' as u8)
    } else if c == 'b' as u8 {
        Some(0x08 as u8)
    } else if c == 't' as u8 {
        Some(0x09 as u8)
    } else if c == 'n' as u8 {
        Some(0x0a as u8)
    } else if c == 'f' as u8 {
        Some(0x0c as u8)
    } else if c == 'r' as u8 {
        Some(0x0d as u8)
    } else {
        None
    }
}

/// The value of a lower-case hex digit.
pub open spec fn hex_val(c: u8) -> Option<u8> {
    if is_digit(c) {
        Some((c - 0x30) as u8)
    } else if 'a' as u8 <= c <= 'f' as u8 {
        Some((c - 'a' as u8 + 10) as u8)
    } else {
        None
    }
}

/// Whether the renderer writes a byte as `\u00XX`: a control byte without a
/// short escape.
pub open spec fn is_u_escaped(b: u8) -> bool {
    b < 0x20 && b != 0x08 && b != 0x09 && b != 0x0a && b != 0x0c && b != 0x0d
}

/// Prepend one decoded byte to the outcome of parsing the rest of a string.
pub open spec fn p_cons(b: u8, rest: Option<(Seq<u8>, int)>) -> Option<(Seq<u8>, int)> {
    match rest {
        Some((t, j)) => Some((seq![b] + t, j)),
        None => None,
    }
}

/// Parse a string body from just after the opening quote to just after the
/// closing quote, undoing the renderer's escaping; the result is the decoded
/// bytes and the position after the closing quote.
pub open spec fn p_str_body(s: Seq<u8>, i: int) -> Option<(Seq<u8>, int)>
    decreases s.len() - i when 0 <= i <= s.len()
{
    if i >= s.len() {
        None
    } else if s[i] == '"' as u8 {
        Some((Seq::empty(), i + 1))
    } else if s[i] == '\\' as u8 {
        if i + 1 >= s.len() {
            None
        } else {
            match short_unescape(s[i + 1]) {
                Some(b) => p_cons(b, p_str_body(s, i + 2)),
                None => if s[i + 1] == 'u' as u8 && i + 5 < s.len() && s[i + 2] == '0' as u8
                    && s[i + 3] == '0' as u8 {
                    match (hex_val(s[i + 4]), hex_val(s[i + 5])) {
                        (Some(h), Some(l)) => {
                            let b = (16 * h + l) as u8;
                            if is_u_escaped(b) {
                                p_cons(b, p_str_body(s, i + 6))
                            } else {
                                None
                            }
                        },
                        _ => None,
                    }
                } else {
                    None
                },
            }
        }
    } else if s[i] < 0x20 {
        None
    } else {
        p_cons(s[i], p_str_body(s, i + 1))
    }
}

/// Parse a whole string literal starting at its opening quote.
pub open spec fn p_string(s: Seq<u8>, i: int) -> Option<(Seq<u8>, int)> {
    if 0 <= i < s.len() && s[i] == '"' as u8 {
        p_str_body(s, i + 1)
    } else {
        None
    }
}

pub proof fn lemma_p_str_body_bounds(s: Seq<u8>, i: int)
    requires
        0 <= i <= s.len(),
    ensures
        match p_str_body(s, i) {
            Some((t, j)) => i < j <= s.len(),
            None => true,
        },
    decreases s.len() - i,
{
    if i >= s.len() {
    } else if s[i] == '"' as u8 {
    } else if s[i] == '\\' as u8 {
        if i + 1 < s.len() {
            match short_unescape(s[i + 1]) {
                Some(b) => lemma_p_str_body_bounds(s, i + 2),
                None => {
                    if s[i + 1] == 'u' as u8 && i + 5 < s.len() {
                        lemma_p_str_body_bounds(s, i + 6);
                    }
                },
            }
        }
    } else {
        lemma_p_str_body_bounds(s, i + 1);
    }
}

pub proof fn lemma_p_string_bounds(s: Seq<u8>, i: int)
    requires
        0 <= i <= s.len(),
    ensures
        match p_string(s, i) {
            Some((t, j)) => i + 2 <= j <= s.len(),
            None => true,
        },
{
    if 0 <= i < s.len() && s[i] == '"' as u8 {
        lemma_p_str_body_bounds(s, i + 1);
    }
}

/// Whether a byte can occur in rendered number text.
pub open spec fn is_number_char(b: u8) -> bool {
    is_digit(b) || b == '-' as u8 || b == '+' as u8 || b == '.' as u8 || b == 'e' as u8 || b
        == 'E' as u8
}

/// The first position at or after `i` without a number character.
pub open spec fn skip_number_chars(s: Seq<u8>, i: int) -> int
    decreases s.len() - i when 0 <= i <= s.len()
{
    if i < s.len() && is_number_char(s[i]) {
        skip_number_chars(s, i + 1)
    } else {
        i
    }
}

pub proof fn lemma_skip_number_chars(s: Seq<u8>, i: int)
    requires
        0 <= i <= s.len(),
    ensures
        i <= skip_number_chars(s, i) <= s.len(),
    decreases s.len() - i,
{
    if i < s.len() && is_number_char(s[i]) {
        lemma_skip_number_chars(s, i + 1);
    }
}

/// Parse a number: the maximal run of number characters, accepted when it
/// satisfies the JSON number grammar.
pub open spec fn p_number(s: Seq<u8>, i: int) -> Option<(JsonVal, int)> {
    let j = skip_number_chars(s, i);
    if i < j && is_number_text(s.subrange(i, j)) {
        Some((JsonVal::Num(s.subrange(i, j)), j))
    } else {
        None
    }
}

/// Whether the text of `lit` stands at position `i` of `s`.
pub open spec fn match_lit(s: Seq<u8>, i: int, lit: Seq<u8>) -> bool {
    0 <= i && i + lit.len() <= s.len() && s.subrange(i, i + lit.len()) == lit
}

/// Parse the items after the opening bracket of an array of strings.
pub open spec fn p_text_more(s: Seq<u8>, i: int) -> Option<(Seq<Seq<u8>>, int)>
    decreases s.len() - i when 0 <= i <= s.len()
{
    if i >= s.len() {
        None
    } else if s[i] == ']' as u8 {
        Some((Seq::empty(), i + 1))
    } else if s[i] == ',' as u8 {
        match p_string(s, i + 1) {
            Some((t, j)) => if i + 1 < j && j <= s.len() {
                match p_text_more(s, j) {
                    Some((ts, k)) => Some((seq![t] + ts, k)),
                    None => None,
                }
            } else {
                None
            },
            None => None,
        }
    } else {
        None
    }
}

/// Parse an array of strings from just after its opening bracket.
pub open spec fn p_text_items(s: Seq<u8>, i: int) -> Option<(Seq<Seq<u8>>, int)> {
    if 0 <= i < s.len() && s[i] == ']' as u8 {
        Some((Seq::empty(), i + 1))
    } else {
        match p_string(s, i) {
            Some((t, j)) => if 0 <= i < j && j <= s.len() {
                match p_text_more(s, j) {
                    Some((ts, k)) => Some((seq![t] + ts, k)),
                    None => None,
                }
            } else {
                None
            },
            None => None,
        }
    }
}

/// Parse one scalar value.
pub open spec fn p_scalar(s: Seq<u8>, i: int) -> Option<(JsonVal, int)> {
    if i < 0 || i >= s.len() {
        None
    } else if s[i] == '"' as u8 {
        match p_string(s, i) {
            Some((t, j)) => Some((JsonVal::Text(t), j)),
            None => None,
        }
    } else if s[i] == '[' as u8 {
        match p_text_items(s, i + 1) {
            Some((ts, j)) => Some((JsonVal::TextList(ts), j)),
            None => None,
        }
    } else if match_lit(s, i, "null".spec_bytes()) {
        Some((JsonVal::Null, i + 4))
    } else if match_lit(s, i, "true".spec_bytes()) {
        Some((JsonVal::Bool(true), i + 4))
    } else if match_lit(s, i, "false".spec_bytes()) {
        Some((JsonVal::Bool(false), i + 5))
    } else {
        p_number(s, i)
    }
}

/// Parse one `"key":value` field.
pub open spec fn p_field(s: Seq<u8>, i: int) -> Option<(FieldV, int)> {
    match p_string(s, i) {
        Some((k, j)) => if 0 <= j < s.len() && s[j] == ':' as u8 {
            match p_scalar(s, j + 1) {
                Some((v, m)) => Some((FieldV { key: k, value: v }, m)),
                None => None,
            }
        } else {
            None
        },
        None => None,
    }
}

/// Parse the fields after the first one: `,"key":value` repeated, then the
/// closing brace.
pub open spec fn p_fields_more(s: Seq<u8>, i: int) -> Option<(Seq<FieldV>, int)>
    decreases s.len() - i when 0 <= i <= s.len()
{
    if i >= s.len() {
        None
    } else if s[i] == '}' as u8 {
        Some((Seq::empty(), i + 1))
    } else if s[i] == ',' as u8 {
        match p_field(s, i + 1) {
            Some((f, j)) => if i + 1 < j && j <= s.len() {
                match p_fields_more(s, j) {
                    Some((fs, k)) => Some((seq![f] + fs, k)),
                    None => None,
                }
            } else {
                None
            },
            None => None,
        }
    } else {
        None
    }
}

/// Parse an object's members from just after the opening brace.
pub open spec fn p_members(s: Seq<u8>, i: int) -> Option<(Seq<FieldV>, int)> {
    if 0 <= i < s.len() && s[i] == '}' as u8 {
        Some((Seq::empty(), i + 1))
    } else {
        match p_field(s, i) {
            Some((f, j)) => if 0 <= i < j && j <= s.len() {
                match p_fields_more(s, j) {
                    Some((fs, k)) => Some((seq![f] + fs, k)),
                    None => None,
                }
            } else {
                None
            },
            None => None,
        }
    }
}

/// Parse an object of scalar fields starting at its opening brace.
pub open spec fn p_object(s: Seq<u8>, i: int) -> Option<(Seq<FieldV>, int)> {
    if 0 <= i < s.len() && s[i] == '{' as u8 {
        p_members(s, i + 1)
    } else {
        None
    }
}

/// Parse a top-level value: a nested object of scalar fields, or a scalar.
pub open spec fn p_top_value(s: Seq<u8>, i: int) -> Option<(TopVal, int)> {
    if 0 <= i < s.len() && s[i] == '{' as u8 {
        match p_members(s, i + 1) {
            Some((fs, j)) => Some((TopVal::Object(fs), j)),
            None => None,
        }
    } else {
        match p_scalar(s, i) {
            Some((v, j)) => Some((TopVal::Scalar(v), j)),
            None => None,
        }
    }
}

/// Parse one top-level `"key":value` entry.
pub open spec fn p_top_field(s: Seq<u8>, i: int) -> Option<(TopV, int)> {
    match p_string(s, i) {
        Some((k, j)) => if 0 <= j < s.len() && s[j] == ':' as u8 {
            match p_top_value(s, j + 1) {
                Some((v, m)) => Some((TopV { key: k, value: v }, m)),
                None => None,
            }
        } else {
            None
        },
        None => None,
    }
}

/// Parse the top-level entries after the first one.
pub open spec fn p_tops_more(s: Seq<u8>, i: int) -> Option<(Seq<TopV>, int)>
    decreases s.len() - i when 0 <= i <= s.len()
{
    if i >= s.len() {
        None
    } else if s[i] == '}' as u8 {
        Some((Seq::empty(), i + 1))
    } else if s[i] == ',' as u8 {
        match p_top_field(s, i + 1) {
            Some((e, j)) => if i + 1 < j && j <= s.len() {
                match p_tops_more(s, j) {
                    Some((es, k)) => Some((seq![e] + es, k)),
                    None => None,
                }
            } else {
                None
            },
            None => None,
        }
    } else {
        None
    }
}

/// Parse the document's entries from just after the opening brace.
pub open spec fn p_top_members(s: Seq<u8>, i: int) -> Option<(Seq<TopV>, int)> {
    if 0 <= i < s.len() && s[i] == '}' as u8 {
        Some((Seq::empty(), i + 1))
    } else {
        match p_top_field(s, i) {
            Some((e, j)) => if 0 <= i < j && j <= s.len() {
                match p_tops_more(s, j) {
                    Some((es, k)) => Some((seq![e] + es, k)),
                    None => None,
                }
            } else {
                None
            },
            None => None,
        }
    }
}

/// The parse of a whole document object: one object whose values are
/// scalars or objects of scalars, with nothing before or after it.
pub open spec fn p_document(s: Seq<u8>) -> Option<Seq<TopV>> {
    if s.len() > 0 && s[0] == '{' as u8 {
        match p_top_members(s, 1) {
            Some((es, j)) => if j == s.len() {
                Some(es)
            } else {
                None
            },
            None => None,
        }
    } else {
        None
    }
}

/// The parse of a whole cached fragment: one object, nothing after it.
pub open spec fn fragment_fields(s: Seq<u8>) -> Option<Seq<FieldV>> {
    match p_object(s, 0) {
        Some((fs, j)) => if j == s.len() {
            Some(fs)
        } else {
            None
        },
        None => None,
    }
}

/// The model of an executable string-parse result.
pub open spec fn str_res_model(r: Option<(Vec<u8>, usize)>) -> Option<(Seq<u8>, int)> {
    match r {
        Some((t, j)) => Some((t@, j as int)),
        None => None,
    }
}

/// Prefixing a decoded prefix onto the rest of a string parse.
pub open spec fn cons_all(prefix: Seq<u8>, rest: Option<(Seq<u8>, int)>) -> Option<(Seq<u8>, int)> {
    match rest {
        Some((t, j)) => Some((prefix + t, j)),
        None => None,
    }
}

proof fn lemma_cons_all_step(prefix: Seq<u8>, b: u8, rest: Option<(Seq<u8>, int)>)
    ensures
        cons_all(prefix, p_cons(b, rest)) == cons_all(prefix.push(b), rest),
{
    match rest {
        Some((t, j)) => {
            assert(prefix + (seq![b] + t) =~= prefix.push(b) + t);
        },
        None => {},
    }
}

/// The short escape codes, decoded.
fn short_unescape_exec(c: u8) -> (r: Option<u8>)
    ensures
        r == short_unescape(c),
{
    if c == '"' as u8 {
        Some('"' as u8)
    } else if c == '\\' as u8 {
        Some('\\' as u8)
    } else if c == 'b' as u8 {
        Some(0x08)
    } else if c == 't' as u8 {
        Some(0x09)
    } else if c == 'n' as u8 {
        Some(0x0a)
    } else if c == 'f' as u8 {
        Some(0x0c)
    } else if c == 'r' as u8 {
        Some(0x0d)
    } else {
        None
    }
}

/// A lower-case hex digit, decoded.
fn hex_val_exec(c: u8) -> (r: Option<u8>)
    ensures
        r == hex_val(c),
        match r {
            Some(v) => v < 16,
            None => true,
        },
{
    if 0x30 <= c && c <= 0x39 {
        Some(c - 0x30)
    } else if 'a' as u8 <= c && c <= 'f' as u8 {
        Some(c - 'a' as u8 + 10)
    } else {
        None
    }
}

/// Parse a string literal starting at its opening quote.
fn parse_string_exec(s: &Vec<u8>, i: usize) -> (r: Option<(Vec<u8>, usize)>)
    ensures
        str_res_model(r) == p_string(s@, i as int),
{
    if i >= s.len() || s[i] != '"' as u8 {
        return None;
    }
    let mut cur: usize = i + 1;
    let mut out: Vec<u8> = Vec::new();
    loop
        invariant
            i < s@.len(),
            s@[i as int] == '"' as u8,
            i + 1 <= cur <= s@.len(),
            p_str_body(s@, i + 1) == cons_all(out@, p_str_body(s@, cur as int)),
        decreases s@.len() - cur,
    {
        if cur >= s.len() {
            return None;
        }
        let b = s[cur];
        if b == '"' as u8 {
            proof {
                assert(p_str_body(s@, cur as int) == Some((Seq::<u8>::empty(), cur + 1)));
                assert(cons_all(out@, p_str_body(s@, cur as int)) == Some(
                    (out@ + Seq::<u8>::empty(), cur + 1),
                ));
                assert(out@ + Seq::<u8>::empty() =~= out@);
                assert(p_str_body(s@, i + 1) == Some((out@, cur + 1)));
                assert(p_string(s@, i as int) == Some((out@, cur + 1)));
            }
            return Some((out, cur + 1));
        }
        if b == '\\' as u8 {
            if cur + 1 >= s.len() {
                return None;
            }
            let c = s[cur + 1];
            match short_unescape_exec(c) {
                Some(d) => {
                    proof {
                        lemma_cons_all_step(out@, d, p_str_body(s@, cur + 2));
                    }
                    out.push(d);
                    cur = cur + 2;
                },
                None => {
                    if c == 'u' as u8 && s.len() - cur > 5 && s[cur + 2] == '0' as u8 && s[cur
                        + 3] == '0' as u8 {
                        let h = hex_val_exec(s[cur + 4]);
                        let l = hex_val_exec(s[cur + 5]);
                        match (h, l) {
                            (Some(hv), Some(lv)) => {
                                let d: u8 = 16 * hv + lv;
                                if d < 0x20 && d != 0x08 && d != 0x09 && d != 0x0a && d != 0x0c
                                    && d != 0x0d {
                                    proof {
                                        lemma_cons_all_step(out@, d, p_str_body(s@, cur + 6));
                                    }
                                    out.push(d);
                                    cur = cur + 6;
                                } else {
                                    return None;
                                }
                            },
                            _ => {
                                return None;
                            },
                        }
                    } else {
                        return None;
                    }
                },
            }
        } else if b < 0x20 {
            return None;
        } else {
            proof {
                lemma_cons_all_step(out@, b, p_str_body(s@, cur + 1));
            }
            out.push(b);
            cur = cur + 1;
        }
    }
}

/// Copy `s[lo..hi]` into a fresh buffer.
fn copy_range(s: &Vec<u8>, lo: usize, hi: usize) -> (r: Vec<u8>)
    requires
        lo <= hi <= s@.len(),
    ensures
        r@ == s@.subrange(lo as int, hi as int),
{
    let mut r: Vec<u8> = Vec::new();
    let mut k: usize = lo;
    while k < hi
        invariant
            lo <= k <= hi <= s@.len(),
            r@ == s@.subrange(lo as int, k as int),
        decreases hi - k,
    {
        r.push(s[k]);
        proof {
            assert(r@ =~= s@.subrange(lo as int, k + 1));
        }
        k = k + 1;
    }
    r
}

/// Advance past any run of number characters.
fn skip_number_chars_exec(s: &Vec<u8>, i: usize) -> (j: usize)
    requires
        i <= s@.len(),
    ensures
        j as int == skip_number_chars(s@, i as int),
        i <= j <= s@.len(),
{
    let mut j: usize = i;
    while j < s.len() && (0x30 <= s[j] && s[j] <= 0x39 || s[j] == '-' as u8 || s[j] == '+' as u8
        || s[j] == '.' as u8 || s[j] == 'e' as u8 || s[j] == 'E' as u8)
        invariant
            i <= j <= s@.len(),
            skip_number_chars(s@, i as int) == skip_number_chars(s@, j as int),
        decreases s@.len() - j,
    {
        j = j + 1;
    }
    proof {
        lemma_skip_number_chars(s@, j as int);
    }
    j
}

/// Whether the text of `tok` stands at position `i` of `s`.
fn match_token(s: &Vec<u8>, i: usize, tok: &str) -> (r: bool)
    ensures
        r == match_lit(s@, i as int, tok.spec_bytes()),
{
    let tb: Vec<u8> = vstd::slice::slice_to_vec(tok.as_bytes());
    let n = tb.len();
    if n > s.len() || i > s.len() - n {
        proof {
            assert(!match_lit(s@, i as int, tok.spec_bytes()));
        }
        return false;
    }
    let slen = s.len();
    let mut k: usize = 0;
    while k < n
        invariant
            0 <= k <= n,
            n == tb@.len(),
            slen == s@.len(),
            tb@ == tok.spec_bytes(),
            i + n <= slen,
            forall|m: int| 0 <= m < k ==> s@[i + m] == tb@[m],
        decreases n - k,
    {
        let idx: usize = i + k;
        if s[idx] != tb[k] {
            proof {
                assert(s@.subrange(i as int, i + tb@.len())[k as int] != tb@[k as int]);
            }
            return false;
        }
        k = k + 1;
    }
    proof {
        assert(s@.subrange(i as int, i + tb@.len()) =~= tb@);
    }
    true
}

/// The model of an executable scalar-parse result.
pub open spec fn scalar_res_model(r: Option<(Scalar, usize)>) -> Option<(JsonVal, int)> {
    match r {
        Some((v, j)) => Some((v@, j as int)),
        None => None,
    }
}

/// Prefixing parsed strings onto the rest of an array parse.
pub open spec fn items_cons_all(
    prefix: Seq<Seq<u8>>,
    rest: Option<(Seq<Seq<u8>>, int)>,
) -> Option<(Seq<Seq<u8>>, int)> {
    match rest {
        Some((ts, k)) => Some((prefix + ts, k)),
        None => None,
    }
}

/// Parse an array of strings from just after its opening bracket.
fn parse_text_items_exec(s: &Vec<u8>, i: usize) -> (r: Option<(Vec<Vec<u8>>, usize)>)
    requires
        i <= s@.len(),
    ensures
        match (r, p_text_items(s@, i as int)) {
            (Some((ts, j)), Some((tss, js))) => ts.deep_view() == tss && j as int == js,
            (None, None) => true,
            _ => false,
        },
{
    if i < s.len() && s[i] == ']' as u8 {
        let empty_items: Vec<Vec<u8>> = Vec::new();
        proof {
            assert(empty_items.deep_view() =~= Seq::<Seq<u8>>::empty());
        }
        return Some((empty_items, i + 1));
    }
    let mut items: Vec<Vec<u8>> = Vec::new();
    let mut cur: usize;
    match parse_string_exec(s, i) {
        None => {
            return None;
        },
        Some((t, j)) => {
            let ghost tv = t@;
            proof {
                lemma_p_string_bounds(s@, i as int);
            }
            items.push(t);
            cur = j;
            proof {
                assert(items.deep_view() =~~= seq![tv]);
                match p_text_more(s@, cur as int) {
                    Some((ts, k)) => {
                        assert(seq![tv] + ts =~~= items.deep_view() + ts);
                    },
                    None => {},
                }
            }
        },
    }
    loop
        invariant
            i < cur <= s@.len(),
            items.deep_view().len() > 0,
            p_text_items(s@, i as int) == items_cons_all(
                items.deep_view(),
                p_text_more(s@, cur as int),
            ),
        decreases s@.len() - cur,
    {
        if cur >= s.len() {
            return None;
        }
        let b = s[cur];
        if b == ']' as u8 {
            proof {
                assert(items.deep_view() + Seq::<Seq<u8>>::empty() =~= items.deep_view());
            }
            return Some((items, cur + 1));
        }
        if b != ',' as u8 {
            return None;
        }
        match parse_string_exec(s, cur + 1) {
            None => {
                return None;
            },
            Some((t, j)) => {
                let ghost tv = t@;
                let ghost pre = items.deep_view();
                proof {
                    lemma_p_string_bounds(s@, cur + 1);
                    match p_text_more(s@, j as int) {
                        Some((ts, k)) => {
                            assert(pre + (seq![tv] + ts) =~~= pre.push(tv) + ts);
                        },
                        None => {},
                    }
                }
                items.push(t);
                proof {
                    assert(items.deep_view() =~~= pre.push(tv));
                }
                cur = j;
            },
        }
    }
}

/// Parse one scalar value.
fn parse_scalar_exec(s: &Vec<u8>, i: usize) -> (r: Option<(Scalar, usize)>)
    requires
        i <= s@.len(),
    ensures
        scalar_res_model(r) == p_scalar(s@, i as int),
{
    if i >= s.len() {
        return None;
    }
    let b = s[i];
    if b == '"' as u8 {
        match parse_string_exec(s, i) {
            Some((t, j)) => Some((Scalar::Text(t), j)),
            None => None,
        }
    } else if b == '[' as u8 {
        proof {
            lemma_p_string_bounds(s@, i as int);
        }
        match parse_text_items_exec(s, i + 1) {
            Some((ts, j)) => Some((Scalar::TextList(ts), j)),
            None => None,
        }
    } else if match_token(s, i, "null") {
        proof {
            lemma_null_lit_len();
        }
        Some((Scalar::Null, i + 4))
    } else if match_token(s, i, "true") {
        proof {
            lemma_true_lit_len();
        }
        Some((Scalar::Bool(true), i + 4))
    } else if match_token(s, i, "false") {
        proof {
            lemma_false_lit_len();
        }
        Some((Scalar::Bool(false), i + 5))
    } else {
        let j = skip_number_chars_exec(s, i);
        if j > i {
            let t = copy_range(s, i, j);
            if check_number_text(&t) {
                return Some((Scalar::Num(t), j));
            }
        }
        None
    }
}

pub proof fn lemma_null_lit_len()
    ensures
        "null".spec_bytes().len() == 4,
{
    reveal_strlit("null");
    assert(vstd::utf8::is_ascii_chars("null"@)) by {
        assert(forall|i: int| 0 <= i < "null"@.len() ==> '\0' <= #[trigger] "null"@[i]
            <= '\u{7f}');
    }
    vstd::utf8::is_ascii_chars_encode_utf8("null"@);
}

pub proof fn lemma_true_lit_len()
    ensures
        "true".spec_bytes().len() == 4,
{
    reveal_strlit("true");
    assert(vstd::utf8::is_ascii_chars("true"@)) by {
        assert(forall|i: int| 0 <= i < "true"@.len() ==> '\0' <= #[trigger] "true"@[i]
            <= '\u{7f}');
    }
    vstd::utf8::is_ascii_chars_encode_utf8("true"@);
}

pub proof fn lemma_p_text_more_bounds(s: Seq<u8>, i: int)
    requires
        0 <= i <= s.len(),
    ensures
        match p_text_more(s, i) {
            Some((ts, k)) => i < k <= s.len(),
            None => true,
        },
    decreases s.len() - i,
{
    if i < s.len() && s[i] == ',' as u8 {
        match p_string(s, i + 1) {
            Some((t, j)) => {
                if i + 1 < j && j <= s.len() {
                    lemma_p_text_more_bounds(s, j);
                }
            },
            None => {},
        }
    }
}

pub proof fn lemma_p_scalar_bounds(s: Seq<u8>, i: int)
    requires
        0 <= i <= s.len(),
    ensures
        match p_scalar(s, i) {
            Some((v, j)) => i < j <= s.len(),
            None => true,
        },
{
    if 0 <= i < s.len() {
        lemma_p_string_bounds(s, i);
        lemma_skip_number_chars(s, i);
        lemma_null_lit_len();
        lemma_true_lit_len();
        lemma_false_lit_len();
        if s[i] == '[' as u8 {
            lemma_p_string_bounds(s, i + 1);
            match p_string(s, i + 1) {
                Some((t, j)) => {
                    if i + 1 < j && j <= s.len() {
                        lemma_p_text_more_bounds(s, j);
                    }
                },
                None => {},
            }
        }
    }
}

pub proof fn lemma_p_field_bounds(s: Seq<u8>, i: int)
    requires
        0 <= i <= s.len(),
    ensures
        match p_field(s, i) {
            Some((f, j)) => i < j <= s.len(),
            None => true,
        },
{
    lemma_p_string_bounds(s, i);
    match p_string(s, i) {
        Some((k, j)) => {
            if 0 <= j < s.len() && s[j] == ':' as u8 {
                lemma_p_scalar_bounds(s, j + 1);
            }
        },
        None => {},
    }
}

/// Parse one `"key":value` field.
fn parse_field_exec(s: &Vec<u8>, i: usize) -> (r: Option<(FieldEntry, usize)>)
    requires
        i <= s@.len(),
    ensures
        match (r, p_field(s@, i as int)) {
            (Some((f, j)), Some((fv, js))) => f@ == fv && j as int == js,
            (None, None) => true,
            _ => false,
        },
{
    match parse_string_exec(s, i) {
        None => None,
        Some((k, j)) => {
            proof {
                lemma_p_string_bounds(s@, i as int);
            }
            if j < s.len() && s[j] == ':' as u8 {
                match parse_scalar_exec(s, j + 1) {
                    Some((v, m)) => Some((FieldEntry { key: k, value: v }, m)),
                    None => None,
                }
            } else {
                None
            }
        },
    }
}

/// Prefixing parsed fields onto the rest of a members parse.
pub open spec fn fields_cons_all(
    prefix: Seq<FieldV>,
    rest: Option<(Seq<FieldV>, int)>,
) -> Option<(Seq<FieldV>, int)> {
    match rest {
        Some((fs, k)) => Some((prefix + fs, k)),
        None => None,
    }
}

/// Parse a whole cached fragment: one object of scalar fields with nothing
/// before or after it.  Returns the fields in written order, or nothing
/// when the fragment is malformed.
pub fn parse_fragment(s: &Vec<u8>) -> (r: Option<Vec<FieldEntry>>)
    ensures
        match (r, fragment_fields(s@)) {
            (Some(es), Some(fs)) => es.deep_view() == fs,
            (None, None) => true,
            _ => false,
        },
{
    if s.len() == 0 || s[0] != '{' as u8 {
        return None;
    }
    if 1 < s.len() && s[1] == '}' as u8 {
        if s.len() == 2 {
            let empty_fields: Vec<FieldEntry> = Vec::new();
            proof {
                assert(empty_fields.deep_view() =~~= Seq::<FieldV>::empty());
            }
            return Some(empty_fields);
        }
        return None;
    }
    let mut fields: Vec<FieldEntry> = Vec::new();
    let mut cur: usize;
    match parse_field_exec(s, 1) {
        None => {
            return None;
        },
        Some((f, j)) => {
            let ghost fv = f@;
            proof {
                lemma_p_field_bounds(s@, 1);
            }
            fields.push(f);
            cur = j;
            proof {
                assert(fields.deep_view() =~~= seq![fv]);
                match p_fields_more(s@, cur as int) {
                    Some((fs, k)) => {
                        assert(seq![fv] + fs =~~= fields.deep_view() + fs);
                    },
                    None => {},
                }
            }
        },
    }
    loop
        invariant
            1 <= cur <= s@.len(),
            s@.len() > 0,
            s@[0] == '{' as u8,
            p_members(s@, 1) == fields_cons_all(fields.deep_view(), p_fields_more(s@, cur as int)),
        decreases s@.len() - cur,
    {
        if cur >= s.len() {
            return None;
        }
        let b = s[cur];
        if b == '}' as u8 {
            proof {
                assert(p_fields_more(s@, cur as int) == Some((Seq::<FieldV>::empty(), cur + 1)));
                assert(fields.deep_view() + Seq::<FieldV>::empty() =~~= fields.deep_view());
            }
            if cur + 1 == s.len() {
                return Some(fields);
            }
            return None;
        }
        if b != ',' as u8 {
            return None;
        }
        match parse_field_exec(s, cur + 1) {
            None => {
                return None;
            },
            Some((f, j)) => {
                let ghost fv = f@;
                let ghost pre = fields.deep_view();
                proof {
                    lemma_p_field_bounds(s@, cur + 1);
                    match p_fields_more(s@, j as int) {
                        Some((fs, k)) => {
                            assert(pre + (seq![fv] + fs) =~~= pre.push(fv) + fs);
                        },
                        None => {},
                    }
                }
                fields.push(f);
                proof {
                    assert(fields.deep_view() =~~= pre.push(fv));
                }
                cur = j;
            },
        }
    }
}

pub proof fn lemma_false_lit_len()
    ensures
        "false".spec_bytes().len() == 5,
{
    reveal_strlit("false");
    assert(vstd::utf8::is_ascii_chars("false"@)) by {
        assert(forall|i: int| 0 <= i < "false"@.len() ==> '\0' <= #[trigger] "false"@[i]
            <= '\u{7f}');
    }
    vstd::utf8::is_ascii_chars_encode_utf8("false"@);
}

} // verus!
