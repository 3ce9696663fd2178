//! The library's laws: rendered fragments parse back to what was rendered.
//!
//! The renderer and the strict parser are exact inverses on well-formed
//! fields, up to the normalization that rendering imposes on numbers (an
//! integer and its decimal text render identically).  These proofs are what
//! make the span merge exact: a cached fragment, produced by the same
//! rendering rules, always parses, and parses to the fields it was rendered
//! from.

use vstd::prelude::*;
use crate::doc::{
    render_field, render_fields, render_object, render_scalar, render_text_items, render_top,
    render_top_value, render_tops, render_document, FieldV, JsonVal, TopV, TopVal,
};
use crate::num::{
    dec_i64, dec_u64, is_digit, is_number_text, lemma_skip_digits, lemma_skip_digits_all,
    number_after_int, number_exponent, skip_digits,
};
use crate::parse::{
    fragment_fields, hex_val, is_number_char, is_u_escaped, match_lit, p_cons, p_document,
    p_field, p_fields_more, p_members, p_number, p_object, p_scalar, p_str_body, p_string,
    p_text_items, p_text_more, p_top_field, p_top_members, p_top_value, p_tops_more,
    short_unescape, skip_number_chars,
};
use crate::text::{esc_all, esc_byte, hex_digit, render_string, StringSliceAdditionalSpecFns};

verus! {

/// Split one subrange equality into two.
pub proof fn lemma_subrange_split(s: Seq<u8>, i: int, a: Seq<u8>, b: Seq<u8>)
    requires
        0 <= i,
        i + a.len() + b.len() <= s.len(),
        s.subrange(i, i + a.len() + b.len()) == a + b,
    ensures
        s.subrange(i, i + a.len()) == a,
        s.subrange(i + a.len(), i + a.len() + b.len()) == b,
{
    assert(s.subrange(i, i + a.len()) =~= a) by {
        assert(forall|k: int| 0 <= k < a.len() ==> s.subrange(
            i,
            i + a.len() + b.len(),
        )[k] == (a + b)[k]);
    }
    assert forall|k: int| 0 <= k < b.len() implies s.subrange(
        i + a.len(),
        i + a.len() + b.len(),
    )[k] == b[k] by {
        assert(s.subrange(i, i + a.len() + b.len())[a.len() + k] == (a + b)[a.len() + k]);
        assert((a + b)[a.len() + k] == b[k]);
        assert(s.subrange(i + a.len(), i + a.len() + b.len())[k] == s[i + a.len() + k]);
    }
    assert(s.subrange(i + a.len(), i + a.len() + b.len()) =~= b);
}

pub proof fn lemma_null_lit_bytes()
    ensures
        "null".spec_bytes() == seq!['n' as u8, 'u' as u8, 'l' as u8, 'l' as u8],
{
    reveal_strlit("null");
    assert(vstd::utf8::is_ascii_chars("null"@)) by {
        assert(forall|i: int| 0 <= i < "null"@.len() ==> '\0' <= #[trigger] "null"@[i]
            <= '\u{7f}');
    }
    vstd::utf8::is_ascii_chars_encode_utf8("null"@);
    assert("null".spec_bytes() =~= seq!['n' as u8, 'u' as u8, 'l' as u8, 'l' as u8]);
}

pub proof fn lemma_true_lit_bytes()
    ensures
        "true".spec_bytes() == seq!['t' as u8, 'r' as u8, 'u' as u8, 'e' as u8],
{
    reveal_strlit("true");
    assert(vstd::utf8::is_ascii_chars("true"@)) by {
        assert(forall|i: int| 0 <= i < "true"@.len() ==> '\0' <= #[trigger] "true"@[i]
            <= '\u{7f}');
    }
    vstd::utf8::is_ascii_chars_encode_utf8("true"@);
    assert("true".spec_bytes() =~= seq!['t' as u8, 'r' as u8, 'u' as u8, 'e' as u8]);
}

pub proof fn lemma_false_lit_bytes()
    ensures
        "false".spec_bytes() == seq!['f' as u8, 'a' as u8, 'l' as u8, 's' as u8, 'e' as u8],
{
    reveal_strlit("false");
    assert(vstd::utf8::is_ascii_chars("false"@)) by {
        assert(forall|i: int| 0 <= i < "false"@.len() ==> '\0' <= #[trigger] "false"@[i]
            <= '\u{7f}');
    }
    vstd::utf8::is_ascii_chars_encode_utf8("false"@);
    assert("false".spec_bytes() =~= seq!['f' as u8, 'a' as u8, 'l' as u8, 's' as u8, 'e' as u8]);
}

/// Parsing a string body consumes exactly the escaped text and the closing
/// quote, and decodes back to the original bytes.
pub proof fn lemma_parse_esc_body(s: Seq<u8>, i: int, t: Seq<u8>)
    requires
        0 <= i,
        i + esc_all(t).len() + 1 <= s.len(),
        s.subrange(i, i + esc_all(t).len() + 1) == esc_all(t) + seq!['"' as u8],
    ensures
        p_str_body(s, i) == Some((t, i + esc_all(t).len() + 1)),
    decreases t.len(),
{
    let whole = esc_all(t) + seq!['"' as u8];
    if t.len() == 0 {
        assert(esc_all(t) == Seq::<u8>::empty());
        assert(s[i] == whole[0]) by {
            assert(s.subrange(i, i + 1)[0] == whole[0]);
        }
        assert(s[i] == '"' as u8);
        assert(t =~= Seq::<u8>::empty());
    } else {
        let b0 = t[0];
        let e = esc_byte(b0);
        let t1 = t.drop_first();
        assert(esc_all(t) == e + esc_all(t1));
        let rest = esc_all(t1) + seq!['"' as u8];
        assert(whole =~= e + rest);
        lemma_subrange_split(s, i, e, rest);
        assert(forall|k: int| 0 <= k < e.len() ==> s[i + k] == e[k]) by {
            assert(forall|k: int| 0 <= k < e.len() ==> s.subrange(i, i + e.len())[k] == e[k]);
        }
        lemma_parse_esc_body(s, i + e.len(), t1);
        assert(seq![b0] + t1 =~= t);
        if b0 == '"' as u8 || b0 == '\\' as u8 {
            assert(e.len() == 2 && e[0] == '\\' as u8);
            assert(short_unescape(e[1]) == Some(b0));
            assert(p_str_body(s, i) == p_cons(b0, p_str_body(s, i + 2)));
        } else if b0 == 0x08 || b0 == 0x09 || b0 == 0x0a || b0 == 0x0c || b0 == 0x0d {
            assert(e.len() == 2 && e[0] == '\\' as u8);
            assert(short_unescape(e[1]) == Some(b0));
            assert(p_str_body(s, i) == p_cons(b0, p_str_body(s, i + 2)));
        } else if b0 < 0x20 {
            assert(e =~= seq![
                '\\' as u8, 'u' as u8, '0' as u8, '0' as u8, hex_digit(b0 / 16), hex_digit(
                    b0 % 16,
                ),
            ]);
            assert(s[i] == '\\' as u8 && s[i + 1] == 'u' as u8 && s[i + 2] == '0' as u8 && s[i
                + 3] == '0' as u8);
            assert(short_unescape('u' as u8) == None::<u8>);
            assert(hex_val(hex_digit(b0 / 16)) == Some(b0 / 16));
            assert(hex_val(hex_digit(b0 % 16)) == Some(b0 % 16));
            assert(16 * (b0 / 16) + (b0 % 16) == b0);
            assert(is_u_escaped(b0));
            assert(p_str_body(s, i) == p_cons(b0, p_str_body(s, i + 6)));
        } else {
            assert(e =~= seq![b0]);
            assert(s[i] == b0);
            assert(b0 != '"' as u8 && b0 != '\\' as u8 && !(b0 < 0x20));
            assert(p_str_body(s, i) == p_cons(b0, p_str_body(s, i + 1)));
        }
    }
}

/// Parsing a rendered string literal gives back exactly the original bytes.
pub proof fn lemma_parse_render_string(s: Seq<u8>, i: int, t: Seq<u8>)
    requires
        0 <= i,
        i + render_string(t).len() <= s.len(),
        s.subrange(i, i + render_string(t).len()) == render_string(t),
    ensures
        p_string(s, i) == Some((t, i + render_string(t).len())),
{
    let r = render_string(t);
    let tail = esc_all(t) + seq!['"' as u8];
    assert(r =~= seq!['"' as u8] + tail);
    lemma_subrange_split(s, i, seq!['"' as u8], tail);
    assert(s[i] == '"' as u8) by {
        assert(s.subrange(i, i + 1)[0] == seq!['"' as u8][0]);
    }
    lemma_parse_esc_body(s, i + 1, t);
}

/// A decimal rendering is all digits, and has no superfluous leading zero.
pub proof fn lemma_dec_u64_digits(n: nat)
    ensures
        dec_u64(n).len() >= 1,
        forall|k: int| 0 <= k < dec_u64(n).len() ==> is_digit(dec_u64(n)[k]),
        n >= 1 ==> dec_u64(n)[0] != '0' as u8,
        n >= 10 ==> dec_u64(n).len() > 1,
    decreases n,
{
    if n < 10 {
    } else {
        lemma_dec_u64_digits(n / 10);
        let pre = dec_u64(n / 10);
        let d = seq![(0x30 + n % 10) as u8];
        assert(dec_u64(n) == pre + d);
        assert forall|k: int| 0 <= k < dec_u64(n).len() implies is_digit(dec_u64(n)[k]) by {
            if k < pre.len() {
                assert((pre + d)[k] == pre[k]);
            } else {
                assert((pre + d)[k] == d[k - pre.len()]);
            }
        }
        assert(dec_u64(n)[0] == pre[0]);
    }
}

/// The decimal rendering of an unsigned value is JSON number text.
pub proof fn lemma_dec_u64_number(n: nat)
    ensures
        is_number_text(dec_u64(n)),
{
    lemma_dec_u64_digits(n);
    let s = dec_u64(n);
    lemma_skip_digits_all(s, 0, s.len() as int);
    assert(s[0] != '-' as u8);
    if s[0] == '0' as u8 {
        assert(n < 1 || s[0] != '0' as u8);
        assert(n == 0);
        assert(s.len() == 1);
        assert(number_after_int(s, 1));
    } else {
        assert(is_digit(s[0]));
        lemma_skip_digits_all(s, 0, s.len() as int);
        assert(number_after_int(s, s.len() as int));
    }
}

/// The decimal rendering of a signed value is JSON number text.
pub proof fn lemma_dec_i64_number(n: int)
    ensures
        is_number_text(dec_i64(n)),
{
    if n >= 0 {
        lemma_dec_u64_number(n as nat);
    } else {
        let m = (-n) as nat;
        lemma_dec_u64_digits(m);
        let d = dec_u64(m);
        let s = dec_i64(n);
        assert(s == seq!['-' as u8] + d);
        assert(s[0] == '-' as u8);
        assert(s.len() == d.len() + 1);
        assert forall|k: int| 1 <= k < s.len() implies is_digit(s[k]) && s[k] == d[k - 1] by {
            assert((seq!['-' as u8] + d)[k] == d[k - 1]);
        }
        assert(m >= 1);
        assert(s[1] == d[0]);
        assert(s[1] != '0' as u8);
        assert(is_digit(s[1]));
        lemma_skip_digits_all(s, 1, s.len() as int);
        assert(number_after_int(s, s.len() as int));
    }
}

/// Every byte of JSON number text is a number character.
pub proof fn lemma_number_chars(t: Seq<u8>)
    requires
        is_number_text(t),
    ensures
        forall|k: int| 0 <= k < t.len() ==> is_number_char(t[k]),
{
    let i0: int = if t.len() > 0 && t[0] == '-' as u8 {
        1
    } else {
        0
    };
    let a: int = if t[i0] == '0' as u8 {
        i0 + 1
    } else {
        skip_digits(t, i0)
    };
    if t[i0] != '0' as u8 {
        lemma_skip_digits(t, i0);
    }
    assert(number_after_int(t, a));
    assert(i0 <= a <= t.len());
    let b: int = if a < t.len() && t[a] == '.' as u8 {
        skip_digits(t, a + 1)
    } else {
        a
    };
    if a < t.len() && t[a] == '.' as u8 {
        lemma_skip_digits(t, a + 1);
        assert(b > a + 1);
    }
    assert(number_exponent(t, b));
    assert(a <= b <= t.len());
    if b == t.len() {
        assert forall|k: int| 0 <= k < t.len() implies is_number_char(t[k]) by {
            number_char_cases(t, i0, a, b, b + 1, k);
        }
    } else {
        assert(t[b] == 'e' as u8 || t[b] == 'E' as u8);
        let c: int = if b + 1 < t.len() && (t[b + 1] == '+' as u8 || t[b + 1] == '-' as u8) {
            b + 2
        } else {
            b + 1
        };
        assert(skip_digits(t, c) == t.len() && skip_digits(t, c) > c);
        lemma_skip_digits(t, c);
        assert forall|k: int| 0 <= k < t.len() implies is_number_char(t[k]) by {
            number_char_cases(t, i0, a, b, c, k);
        }
    }
}

/// One position of number text, classified by its region.
proof fn number_char_cases(t: Seq<u8>, i0: int, a: int, b: int, c: int, k: int)
    requires
        0 <= k < t.len(),
        0 <= i0 <= a <= b <= t.len(),
        i0 <= 1,
        b < c <= b + 2,
        i0 == 1 ==> t[0] == '-' as u8,
        i0 <= a,
        forall|m: int| i0 <= m < a ==> is_digit(t[m]),
        a < b ==> t[a] == '.' as u8,
        forall|m: int| a + 1 <= m < b ==> is_digit(t[m]),
        b < t.len() ==> (t[b] == 'e' as u8 || t[b] == 'E' as u8),
        b < t.len() && c == b + 2 ==> (t[b + 1] == '+' as u8 || t[b + 1] == '-' as u8),
        forall|m: int| c <= m < t.len() ==> is_digit(t[m]),
    ensures
        is_number_char(t[k]),
{
    if k < i0 {
        assert(t[k] == '-' as u8);
    } else if k < a {
        assert(is_digit(t[k]));
    } else if a < b && k == a {
        assert(t[k] == '.' as u8);
    } else if a < b && k < b {
        assert(is_digit(t[k]));
    } else if b < t.len() && k == b {
    } else if b < t.len() && c == b + 2 && k == b + 1 {
    } else {
        assert(k >= b);
        assert(b < t.len());
        assert(k > b);
        assert(k >= c);
        assert(is_digit(t[k]));
    }
}

/// A run that is all number characters is skipped whole.
pub proof fn lemma_skip_number_chars_all(s: Seq<u8>, i: int, j: int)
    requires
        0 <= i <= j <= s.len(),
        forall|k: int| i <= k < j ==> is_number_char(s[k]),
        j < s.len() ==> !is_number_char(s[j]),
    ensures
        skip_number_chars(s, i) == j,
    decreases j - i,
{
    if i < j {
        lemma_skip_number_chars_all(s, i + 1, j);
    }
}

/// What parsing hands back for a rendered value: integers stand in their
/// decimal text, pre-rendered number text that fails the number grammar was
/// emitted as a string and comes back as one, and everything else is
/// unchanged.
pub open spec fn normalize_val(v: JsonVal) -> JsonVal {
    match v {
        JsonVal::Int(n) => JsonVal::Num(dec_i64(n as int)),
        JsonVal::UInt(n) => JsonVal::Num(dec_u64(n as nat)),
        JsonVal::Num(t) => if is_number_text(t) {
            JsonVal::Num(t)
        } else {
            JsonVal::Text(t)
        },
        _ => v,
    }
}

pub open spec fn normalize_fields(fs: Seq<FieldV>) -> Seq<FieldV> {
    fs.map_values(|f: FieldV| FieldV { key: f.key, value: normalize_val(f.value) })
}

/// Parsing rendered number text at its place in a longer text consumes
/// exactly that text.
proof fn lemma_parse_number_at(s: Seq<u8>, i: int, t: Seq<u8>)
    requires
        0 <= i,
        is_number_text(t),
        i + t.len() <= s.len(),
        s.subrange(i, i + t.len()) == t,
        i + t.len() < s.len(),
        !is_number_char(s[i + t.len()]),
    ensures
        p_number(s, i) == Some((JsonVal::Num(t), i + t.len())),
{
    lemma_number_chars(t);
    assert forall|k: int| i <= k < i + t.len() implies is_number_char(s[k]) by {
        assert(s.subrange(i, i + t.len())[k - i] == t[k - i]);
    }
    lemma_skip_number_chars_all(s, i, i + t.len());
    assert(t.len() > 0);
}

/// The text after an array's first item: `,item` repeated, then `]`.
pub open spec fn items_tail_render(m: Seq<Seq<u8>>) -> Seq<u8>
    decreases m.len(),
{
    if m.len() == 0 {
        seq![']' as u8]
    } else {
        seq![',' as u8] + render_string(m[0]) + items_tail_render(m.drop_first())
    }
}

proof fn lemma_items_tail_alt(m: Seq<Seq<u8>>)
    ensures
        items_tail_render(m) == if m.len() == 0 {
            seq![']' as u8]
        } else {
            seq![',' as u8] + render_text_items(m) + seq![']' as u8]
        },
    decreases m.len(),
{
    if m.len() == 0 {
    } else if m.len() == 1 {
        assert(m.drop_first().len() == 0);
        assert(items_tail_render(m.drop_first()) == seq![']' as u8]);
        assert(items_tail_render(m) =~= seq![',' as u8] + render_text_items(m) + seq![']' as u8]);
    } else {
        let t1 = m.drop_first();
        lemma_items_tail_alt(t1);
        assert(items_tail_render(t1) == seq![',' as u8] + render_text_items(t1) + seq![']' as u8]);
        assert(render_text_items(m) == render_string(m[0]) + seq![',' as u8] + render_text_items(
            t1,
        ));
        assert(items_tail_render(m) == seq![',' as u8] + render_string(m[0]) + items_tail_render(
            t1,
        ));
        assert(items_tail_render(m) =~= seq![',' as u8] + render_text_items(m) + seq![']' as u8]);
    }
}

proof fn lemma_text_items_decompose(l: Seq<Seq<u8>>)
    requires
        l.len() > 0,
    ensures
        render_text_items(l) + seq![']' as u8] == render_string(l[0]) + items_tail_render(
            l.drop_first(),
        ),
{
    lemma_items_tail_alt(l.drop_first());
    if l.len() == 1 {
        assert(render_text_items(l) + seq![']' as u8] =~= render_string(l[0]) + items_tail_render(
            l.drop_first(),
        ));
    } else {
        assert(render_text_items(l) + seq![']' as u8] =~= render_string(l[0]) + items_tail_render(
            l.drop_first(),
        ));
    }
}

proof fn lemma_parse_items_tail(s: Seq<u8>, i: int, m: Seq<Seq<u8>>)
    requires
        0 <= i,
        i + items_tail_render(m).len() <= s.len(),
        s.subrange(i, i + items_tail_render(m).len()) == items_tail_render(m),
    ensures
        p_text_more(s, i) == Some((m, i + items_tail_render(m).len())),
    decreases m.len(),
{
    if m.len() == 0 {
        assert(s[i] == ']' as u8) by {
            assert(s.subrange(i, i + 1)[0] == items_tail_render(m)[0]);
        }
        assert(m =~= Seq::<Seq<u8>>::empty());
    } else {
        let rs = render_string(m[0]);
        let rest = items_tail_render(m.drop_first());
        assert(items_tail_render(m) =~= seq![',' as u8] + (rs + rest));
        lemma_subrange_split(s, i, seq![',' as u8], rs + rest);
        assert(s[i] == ',' as u8) by {
            assert(s.subrange(i, i + 1)[0] == seq![',' as u8][0]);
        }
        lemma_subrange_split(s, i + 1, rs, rest);
        lemma_parse_render_string(s, i + 1, m[0]);
        lemma_parse_items_tail(s, i + 1 + rs.len(), m.drop_first());
        assert(seq![m[0]] + m.drop_first() =~= m);
    }
}

proof fn lemma_parse_text_items(s: Seq<u8>, i: int, l: Seq<Seq<u8>>)
    requires
        0 <= i,
        i + render_text_items(l).len() + 1 <= s.len(),
        s.subrange(i, i + render_text_items(l).len() + 1) == render_text_items(l) + seq![
            ']' as u8,
        ],
    ensures
        p_text_items(s, i) == Some((l, i + render_text_items(l).len() + 1)),
{
    if l.len() == 0 {
        assert(s[i] == ']' as u8) by {
            assert(s.subrange(i, i + 1)[0] == (render_text_items(l) + seq![']' as u8])[0]);
        }
        assert(l =~= Seq::<Seq<u8>>::empty());
    } else {
        lemma_text_items_decompose(l);
        let rs = render_string(l[0]);
        let tail = items_tail_render(l.drop_first());
        assert(render_text_items(l) + seq![']' as u8] =~= rs + tail);
        lemma_subrange_split(s, i, rs, tail);
        assert(s[i] == '"' as u8) by {
            assert(s.subrange(i, i + rs.len())[0] == rs[0]);
            assert(rs[0] == '"' as u8);
        }
        lemma_parse_render_string(s, i, l[0]);
        lemma_parse_items_tail(s, i + rs.len(), l.drop_first());
        assert(seq![l[0]] + l.drop_first() =~= l);
        assert(rs.len() + tail.len() == render_text_items(l).len() + 1);
    }
}

/// The first byte of a subrange equality.
proof fn lemma_first_byte(s: Seq<u8>, i: int, r: Seq<u8>)
    requires
        0 <= i,
        i + r.len() <= s.len(),
        r.len() > 0,
        s.subrange(i, i + r.len()) == r,
    ensures
        s[i] == r[0],
{
    assert(s.subrange(i, i + r.len())[0] == r[0]);
}

/// Parsing a rendered scalar at its place in a longer text consumes exactly
/// its rendering and returns its normalized value.  The byte after it must
/// not be a number character (inside an object it is a comma, a brace or a
/// bracket), so number text is read whole.
pub proof fn lemma_parse_render_scalar(s: Seq<u8>, i: int, v: JsonVal)
    requires
        0 <= i,
        i + render_scalar(v).len() < s.len(),
        s.subrange(i, i + render_scalar(v).len()) == render_scalar(v),
        !is_number_char(s[i + render_scalar(v).len()]),
    ensures
        p_scalar(s, i) == Some((normalize_val(v), i + render_scalar(v).len())),
{
    let r = render_scalar(v);
    lemma_null_lit_bytes();
    lemma_true_lit_bytes();
    lemma_false_lit_bytes();
    assert(r.len() > 0) by {
        match v {
            JsonVal::Null => {},
            JsonVal::Bool(b) => {},
            JsonVal::Int(n) => {
                lemma_dec_i64_number(n as int);
            },
            JsonVal::UInt(n) => {
                lemma_dec_u64_digits(n as nat);
            },
            JsonVal::Num(t) => {
                if is_number_text(t) {
                    lemma_number_chars(t);
                    if t.len() == 0 {
                        assert(!is_number_text(t));
                    }
                }
            },
            JsonVal::Text(t) => {},
            JsonVal::TextList(l) => {},
        }
    }
    lemma_first_byte(s, i, r);
    match v {
        JsonVal::Null => {
            assert(r == "null".spec_bytes());
            assert(r[0] == 'n' as u8);
            assert(s[i] == 'n' as u8);
            assert(match_lit(s, i, "null".spec_bytes()));
        },
        JsonVal::Bool(b) => {
            if b {
                assert(r == "true".spec_bytes());
                assert(r[0] == 't' as u8);
                assert(s[i] == 't' as u8);
                if match_lit(s, i, "null".spec_bytes()) {
                    assert(s.subrange(i, i + 4)[0] == 'n' as u8);
                    assert(false);
                }
                assert(match_lit(s, i, "true".spec_bytes()));
            } else {
                assert(r == "false".spec_bytes());
                assert(r[0] == 'f' as u8);
                assert(s[i] == 'f' as u8);
                if match_lit(s, i, "null".spec_bytes()) {
                    assert(s.subrange(i, i + 4)[0] == 'n' as u8);
                    assert(false);
                }
                if match_lit(s, i, "true".spec_bytes()) {
                    assert(s.subrange(i, i + 4)[0] == 't' as u8);
                    assert(false);
                }
                assert(match_lit(s, i, "false".spec_bytes()));
            }
        },
        JsonVal::Int(n) => {
            lemma_dec_i64_number(n as int);
            lemma_number_chars(r);
            assert(is_number_char(r[0]));
            assert(is_number_char(s[i]));
            if match_lit(s, i, "null".spec_bytes()) {
                assert(s.subrange(i, i + 4)[0] == 'n' as u8);
                assert(false);
            }
            if match_lit(s, i, "true".spec_bytes()) {
                assert(s.subrange(i, i + 4)[0] == 't' as u8);
                assert(false);
            }
            if match_lit(s, i, "false".spec_bytes()) {
                assert(s.subrange(i, i + 5)[0] == 'f' as u8);
                assert(false);
            }
            lemma_parse_number_at(s, i, r);
        },
        JsonVal::UInt(n) => {
            lemma_dec_u64_number(n as nat);
            lemma_number_chars(r);
            assert(is_number_char(r[0]));
            assert(is_number_char(s[i]));
            if match_lit(s, i, "null".spec_bytes()) {
                assert(s.subrange(i, i + 4)[0] == 'n' as u8);
                assert(false);
            }
            if match_lit(s, i, "true".spec_bytes()) {
                assert(s.subrange(i, i + 4)[0] == 't' as u8);
                assert(false);
            }
            if match_lit(s, i, "false".spec_bytes()) {
                assert(s.subrange(i, i + 5)[0] == 'f' as u8);
                assert(false);
            }
            lemma_parse_number_at(s, i, r);
        },
        JsonVal::Num(t) => {
            if is_number_text(t) {
                assert(r == t);
                lemma_number_chars(t);
                assert(is_number_char(r[0]));
                assert(is_number_char(s[i]));
                if match_lit(s, i, "null".spec_bytes()) {
                    assert(s.subrange(i, i + 4)[0] == 'n' as u8);
                    assert(false);
                }
                if match_lit(s, i, "true".spec_bytes()) {
                    assert(s.subrange(i, i + 4)[0] == 't' as u8);
                    assert(false);
                }
                if match_lit(s, i, "false".spec_bytes()) {
                    assert(s.subrange(i, i + 5)[0] == 'f' as u8);
                    assert(false);
                }
                lemma_parse_number_at(s, i, t);
            } else {
                assert(r == render_string(t));
                assert(r[0] == '"' as u8) by {
                    assert((seq!['"' as u8] + esc_all(t) + seq!['"' as u8])[0] == '"' as u8);
                }
                assert(s[i] == '"' as u8);
                lemma_parse_render_string(s, i, t);
            }
        },
        JsonVal::Text(t) => {
            assert(r == render_string(t));
            assert(r[0] == '"' as u8) by {
                assert((seq!['"' as u8] + esc_all(t) + seq!['"' as u8])[0] == '"' as u8);
            }
            assert(s[i] == '"' as u8);
            lemma_parse_render_string(s, i, t);
        },
        JsonVal::TextList(l) => {
            assert(r =~= seq!['[' as u8] + (render_text_items(l) + seq![']' as u8]));
            lemma_subrange_split(s, i, seq!['[' as u8], render_text_items(l) + seq![']' as u8]);
            assert(r[0] == '[' as u8) by {
                assert((seq!['[' as u8] + render_text_items(l) + seq![']' as u8])[0] == '[' as u8);
            }
            assert(s[i] == '[' as u8);
            lemma_parse_text_items(s, i + 1, l);
        },
    }
}

/// The text after an object's first field: `,"key":value` repeated, then
/// the closing brace.
pub open spec fn fields_tail_render(m: Seq<FieldV>) -> Seq<u8>
    decreases m.len(),
{
    if m.len() == 0 {
        seq!['}' as u8]
    } else {
        seq![',' as u8] + render_field(m[0]) + fields_tail_render(m.drop_first())
    }
}

proof fn lemma_fields_tail_alt(m: Seq<FieldV>)
    ensures
        fields_tail_render(m) == if m.len() == 0 {
            seq!['}' as u8]
        } else {
            seq![',' as u8] + render_fields(m) + seq!['}' as u8]
        },
    decreases m.len(),
{
    if m.len() == 0 {
    } else if m.len() == 1 {
        assert(m.drop_first().len() == 0);
        assert(fields_tail_render(m.drop_first()) == seq!['}' as u8]);
        assert(fields_tail_render(m) =~= seq![',' as u8] + render_fields(m) + seq!['}' as u8]);
    } else {
        let t1 = m.drop_first();
        lemma_fields_tail_alt(t1);
        assert(fields_tail_render(t1) == seq![',' as u8] + render_fields(t1) + seq!['}' as u8]);
        assert(render_fields(m) == render_field(m[0]) + seq![',' as u8] + render_fields(t1));
        assert(fields_tail_render(m) == seq![',' as u8] + render_field(m[0]) + fields_tail_render(
            t1,
        ));
        assert(fields_tail_render(m) =~= seq![',' as u8] + render_fields(m) + seq!['}' as u8]);
    }
}

proof fn lemma_render_fields_decompose(fs: Seq<FieldV>)
    requires
        fs.len() > 0,
    ensures
        render_fields(fs) + seq!['}' as u8] == render_field(fs[0]) + fields_tail_render(
            fs.drop_first(),
        ),
{
    lemma_fields_tail_alt(fs.drop_first());
    if fs.len() == 1 {
        assert(render_fields(fs) + seq!['}' as u8] =~= render_field(fs[0]) + fields_tail_render(
            fs.drop_first(),
        ));
    } else {
        assert(render_fields(fs) + seq!['}' as u8] =~= render_field(fs[0]) + fields_tail_render(
            fs.drop_first(),
        ));
    }
}

proof fn lemma_fields_tail_first(m: Seq<FieldV>)
    ensures
        fields_tail_render(m).len() >= 1,
        fields_tail_render(m)[0] == ',' as u8 || fields_tail_render(m)[0] == '}' as u8,
{
    if m.len() == 0 {
    } else {
        assert((seq![',' as u8] + render_field(m[0]) + fields_tail_render(m.drop_first()))[0]
            == ',' as u8);
    }
}

/// Parsing a rendered field consumes exactly its rendering and returns the
/// field with its value normalized.
pub proof fn lemma_parse_render_field(s: Seq<u8>, i: int, f: FieldV)
    requires
        0 <= i,
        i + render_field(f).len() < s.len(),
        s.subrange(i, i + render_field(f).len()) == render_field(f),
        !is_number_char(s[i + render_field(f).len()]),
    ensures
        p_field(s, i) == Some(
            (FieldV { key: f.key, value: normalize_val(f.value) }, i + render_field(f).len()),
        ),
{
    let rk = render_string(f.key);
    let rv = render_scalar(f.value);
    assert(render_field(f) =~= rk + (seq![':' as u8] + rv));
    lemma_subrange_split(s, i, rk, seq![':' as u8] + rv);
    lemma_parse_render_string(s, i, f.key);
    let j = i + rk.len();
    lemma_subrange_split(s, j, seq![':' as u8], rv);
    assert(s[j] == ':' as u8) by {
        assert(s.subrange(j, j + 1)[0] == seq![':' as u8][0]);
    }
    lemma_parse_render_scalar(s, j + 1, f.value);
}

proof fn lemma_parse_fields_tail(s: Seq<u8>, i: int, m: Seq<FieldV>)
    requires
        0 <= i,
        i + fields_tail_render(m).len() <= s.len(),
        s.subrange(i, i + fields_tail_render(m).len()) == fields_tail_render(m),
    ensures
        p_fields_more(s, i) == Some((normalize_fields(m), i + fields_tail_render(m).len())),
    decreases m.len(),
{
    if m.len() == 0 {
        assert(s[i] == '}' as u8) by {
            assert(s.subrange(i, i + 1)[0] == fields_tail_render(m)[0]);
        }
        assert(normalize_fields(m) =~= Seq::<FieldV>::empty());
    } else {
        let rf = render_field(m[0]);
        let rest = fields_tail_render(m.drop_first());
        assert(fields_tail_render(m) =~= seq![',' as u8] + (rf + rest));
        lemma_subrange_split(s, i, seq![',' as u8], rf + rest);
        assert(s[i] == ',' as u8) by {
            assert(s.subrange(i, i + 1)[0] == seq![',' as u8][0]);
        }
        lemma_subrange_split(s, i + 1, rf, rest);
        lemma_fields_tail_first(m.drop_first());
        assert(s[i + 1 + rf.len()] == rest[0]) by {
            assert(s.subrange(i + 1 + rf.len(), i + 1 + rf.len() + rest.len())[0] == rest[0]);
        }
        assert(!is_number_char(s[i + 1 + rf.len()]));
        lemma_parse_render_field(s, i + 1, m[0]);
        lemma_parse_fields_tail(s, i + 1 + rf.len(), m.drop_first());
        let nf0 = FieldV { key: m[0].key, value: normalize_val(m[0].value) };
        assert(seq![nf0] + normalize_fields(m.drop_first()) =~= normalize_fields(m));
    }
}

/// Parsing a rendered object of scalar fields, standing at position `i` of
/// a longer text, consumes exactly its rendering.
proof fn lemma_parse_members_at(s: Seq<u8>, i: int, fs: Seq<FieldV>)
    requires
        0 <= i,
        i + render_object(fs).len() <= s.len(),
        s.subrange(i, i + render_object(fs).len()) == render_object(fs),
    ensures
        p_members(s, i + 1) == Some((normalize_fields(fs), i + render_object(fs).len())),
{
    let r = render_object(fs);
    if fs.len() == 0 {
        assert(render_fields(fs) == Seq::<u8>::empty());
        assert(r =~= seq!['{' as u8, '}' as u8]);
        assert(s[i + 1] == '}' as u8) by {
            assert(s.subrange(i, i + 2)[1] == r[1]);
        }
        assert(normalize_fields(fs) =~= fs);
    } else {
        lemma_render_fields_decompose(fs);
        let rf = render_field(fs[0]);
        let rest = fields_tail_render(fs.drop_first());
        assert(r =~= seq!['{' as u8] + (rf + rest));
        lemma_subrange_split(s, i, seq!['{' as u8], rf + rest);
        lemma_subrange_split(s, i + 1, rf, rest);
        assert(rf[0] == '"' as u8) by {
            let rk = render_string(fs[0].key);
            assert(rf =~= rk + (seq![':' as u8] + render_scalar(fs[0].value)));
            assert(rf[0] == rk[0]);
            assert((seq!['"' as u8] + esc_all(fs[0].key) + seq!['"' as u8])[0] == '"' as u8);
        }
        assert(s[i + 1] == '"' as u8) by {
            assert(s.subrange(i + 1, i + 1 + rf.len())[0] == rf[0]);
        }
        lemma_fields_tail_first(fs.drop_first());
        assert(s[i + 1 + rf.len()] == rest[0]) by {
            assert(s.subrange(i + 1 + rf.len(), i + 1 + rf.len() + rest.len())[0] == rest[0]);
        }
        assert(!is_number_char(s[i + 1 + rf.len()]));
        lemma_parse_render_field(s, i + 1, fs[0]);
        lemma_parse_fields_tail(s, i + 1 + rf.len(), fs.drop_first());
        let nf0 = FieldV { key: fs[0].key, value: normalize_val(fs[0].value) };
        assert(seq![nf0] + normalize_fields(fs.drop_first()) =~= normalize_fields(fs));
        assert(1 + rf.len() + rest.len() == r.len());
    }
}

/// The round trip of the span cache: a fragment rendered from any fields
/// always parses, and parses back to exactly those fields, with each value
/// in its rendered (normalized) form.  This is what makes the span merge
/// exact, and it exhibits every rendered fragment as syntactically valid
/// JSON: the strict object grammar accepts it whole.
pub proof fn lemma_fragment_round_trip(fs: Seq<FieldV>)
    ensures
        fragment_fields(render_object(fs)) == Some(normalize_fields(fs)),
{
    let s = render_object(fs);
    assert(s.subrange(0, s.len() as int) =~= s);
    lemma_parse_members_at(s, 0, fs);
    assert(s[0] == '{' as u8) by {
        assert(s =~= seq!['{' as u8] + render_fields(fs) + seq!['}' as u8]);
    }
}

/// The first byte of a rendered scalar is never an opening brace, so a
/// scalar and a nested object can be told apart by one byte.
proof fn lemma_render_scalar_first(v: JsonVal)
    ensures
        render_scalar(v).len() > 0,
        render_scalar(v)[0] != '{' as u8,
{
    let r = render_scalar(v);
    lemma_null_lit_bytes();
    lemma_true_lit_bytes();
    lemma_false_lit_bytes();
    match v {
        JsonVal::Null => {},
        JsonVal::Bool(b) => {},
        JsonVal::Int(n) => {
            lemma_dec_i64_number(n as int);
            lemma_number_chars(r);
            assert(is_number_char(r[0]));
        },
        JsonVal::UInt(n) => {
            lemma_dec_u64_number(n as nat);
            lemma_number_chars(r);
            assert(is_number_char(r[0]));
        },
        JsonVal::Num(t) => {
            if is_number_text(t) {
                lemma_number_chars(t);
                assert(t.len() > 0);
                assert(is_number_char(r[0]));
            } else {
                assert(r == render_string(t));
                assert((seq!['"' as u8] + esc_all(t) + seq!['"' as u8])[0] == '"' as u8);
            }
        },
        JsonVal::Text(t) => {
            assert((seq!['"' as u8] + esc_all(t) + seq!['"' as u8])[0] == '"' as u8);
        },
        JsonVal::TextList(l) => {
            assert((seq!['[' as u8] + render_text_items(l) + seq![']' as u8])[0] == '[' as u8);
        },
    }
}

/// What parsing hands back for a top-level value.
pub open spec fn normalize_top_value(v: TopVal) -> TopVal {
    match v {
        TopVal::Scalar(sc) => TopVal::Scalar(normalize_val(sc)),
        TopVal::Object(fs) => TopVal::Object(normalize_fields(fs)),
    }
}

pub open spec fn normalize_tops(es: Seq<TopV>) -> Seq<TopV> {
    es.map_values(|e: TopV| TopV { key: e.key, value: normalize_top_value(e.value) })
}

/// Parsing a rendered top-level value consumes exactly its rendering.
proof fn lemma_parse_render_top_value(s: Seq<u8>, i: int, v: TopVal)
    requires
        0 <= i,
        i + render_top_value(v).len() < s.len(),
        s.subrange(i, i + render_top_value(v).len()) == render_top_value(v),
        !is_number_char(s[i + render_top_value(v).len()]),
    ensures
        p_top_value(s, i) == Some((normalize_top_value(v), i + render_top_value(v).len())),
{
    let r = render_top_value(v);
    match v {
        TopVal::Scalar(sc) => {
            lemma_render_scalar_first(sc);
            lemma_first_byte(s, i, r);
            assert(s[i] != '{' as u8);
            lemma_parse_render_scalar(s, i, sc);
        },
        TopVal::Object(fs) => {
            assert(r == render_object(fs));
            assert(r[0] == '{' as u8) by {
                assert(r =~= seq!['{' as u8] + render_fields(fs) + seq!['}' as u8]);
            }
            lemma_first_byte(s, i, r);
            lemma_parse_members_at(s, i, fs);
        },
    }
}

/// Parsing a rendered top-level entry consumes exactly its rendering.
proof fn lemma_parse_render_top(s: Seq<u8>, i: int, e: TopV)
    requires
        0 <= i,
        i + render_top(e).len() < s.len(),
        s.subrange(i, i + render_top(e).len()) == render_top(e),
        !is_number_char(s[i + render_top(e).len()]),
    ensures
        p_top_field(s, i) == Some(
            (TopV { key: e.key, value: normalize_top_value(e.value) }, i + render_top(e).len()),
        ),
{
    let rk = render_string(e.key);
    let rv = render_top_value(e.value);
    assert(render_top(e) =~= rk + (seq![':' as u8] + rv));
    lemma_subrange_split(s, i, rk, seq![':' as u8] + rv);
    lemma_parse_render_string(s, i, e.key);
    let j = i + rk.len();
    lemma_subrange_split(s, j, seq![':' as u8], rv);
    assert(s[j] == ':' as u8) by {
        assert(s.subrange(j, j + 1)[0] == seq![':' as u8][0]);
    }
    lemma_parse_render_top_value(s, j + 1, e.value);
}

/// The text after a document's first entry: `,"key":value` repeated, then
/// the closing brace.
pub open spec fn tops_tail_render(m: Seq<TopV>) -> Seq<u8>
    decreases m.len(),
{
    if m.len() == 0 {
        seq!['}' as u8]
    } else {
        seq![',' as u8] + render_top(m[0]) + tops_tail_render(m.drop_first())
    }
}

proof fn lemma_tops_tail_alt(m: Seq<TopV>)
    ensures
        tops_tail_render(m) == if m.len() == 0 {
            seq!['}' as u8]
        } else {
            seq![',' as u8] + render_tops(m) + seq!['}' as u8]
        },
    decreases m.len(),
{
    if m.len() == 0 {
    } else if m.len() == 1 {
        assert(m.drop_first().len() == 0);
        assert(tops_tail_render(m.drop_first()) == seq!['}' as u8]);
        assert(tops_tail_render(m) =~= seq![',' as u8] + render_tops(m) + seq!['}' as u8]);
    } else {
        let t1 = m.drop_first();
        lemma_tops_tail_alt(t1);
        assert(tops_tail_render(t1) == seq![',' as u8] + render_tops(t1) + seq!['}' as u8]);
        assert(render_tops(m) == render_top(m[0]) + seq![',' as u8] + render_tops(t1));
        assert(tops_tail_render(m) == seq![',' as u8] + render_top(m[0]) + tops_tail_render(t1));
        assert(tops_tail_render(m) =~= seq![',' as u8] + render_tops(m) + seq!['}' as u8]);
    }
}

proof fn lemma_render_tops_decompose(es: Seq<TopV>)
    requires
        es.len() > 0,
    ensures
        render_tops(es) + seq!['}' as u8] == render_top(es[0]) + tops_tail_render(
            es.drop_first(),
        ),
{
    lemma_tops_tail_alt(es.drop_first());
    if es.len() == 1 {
        assert(render_tops(es) + seq!['}' as u8] =~= render_top(es[0]) + tops_tail_render(
            es.drop_first(),
        ));
    } else {
        assert(render_tops(es) + seq!['}' as u8] =~= render_top(es[0]) + tops_tail_render(
            es.drop_first(),
        ));
    }
}

proof fn lemma_tops_tail_first(m: Seq<TopV>)
    ensures
        tops_tail_render(m).len() >= 1,
        tops_tail_render(m)[0] == ',' as u8 || tops_tail_render(m)[0] == '}' as u8,
{
    if m.len() == 0 {
    } else {
        assert((seq![',' as u8] + render_top(m[0]) + tops_tail_render(m.drop_first()))[0]
            == ',' as u8);
    }
}

proof fn lemma_parse_tops_tail(s: Seq<u8>, i: int, m: Seq<TopV>)
    requires
        0 <= i,
        i + tops_tail_render(m).len() <= s.len(),
        s.subrange(i, i + tops_tail_render(m).len()) == tops_tail_render(m),
    ensures
        p_tops_more(s, i) == Some((normalize_tops(m), i + tops_tail_render(m).len())),
    decreases m.len(),
{
    if m.len() == 0 {
        assert(s[i] == '}' as u8) by {
            assert(s.subrange(i, i + 1)[0] == tops_tail_render(m)[0]);
        }
        assert(normalize_tops(m) =~= Seq::<TopV>::empty());
    } else {
        let rf = render_top(m[0]);
        let rest = tops_tail_render(m.drop_first());
        assert(tops_tail_render(m) =~= seq![',' as u8] + (rf + rest));
        lemma_subrange_split(s, i, seq![',' as u8], rf + rest);
        assert(s[i] == ',' as u8) by {
            assert(s.subrange(i, i + 1)[0] == seq![',' as u8][0]);
        }
        lemma_subrange_split(s, i + 1, rf, rest);
        lemma_tops_tail_first(m.drop_first());
        assert(s[i + 1 + rf.len()] == rest[0]) by {
            assert(s.subrange(i + 1 + rf.len(), i + 1 + rf.len() + rest.len())[0] == rest[0]);
        }
        assert(!is_number_char(s[i + 1 + rf.len()]));
        lemma_parse_render_top(s, i + 1, m[0]);
        lemma_parse_tops_tail(s, i + 1 + rf.len(), m.drop_first());
        let ne0 = TopV { key: m[0].key, value: normalize_top_value(m[0].value) };
        assert(seq![ne0] + normalize_tops(m.drop_first()) =~= normalize_tops(m));
    }
}

/// Every rendered document parses, whole, under the document grammar, and
/// parses back to its own entries (numbers in rendered form).  Every line
/// the assembler emits is the rendering of its entries followed by one
/// newline, so every emitted line is syntactically valid JSON.
pub proof fn lemma_document_round_trip(es: Seq<TopV>)
    ensures
        p_document(render_document(es)) == Some(normalize_tops(es)),
{
    let s = render_document(es);
    assert(s.subrange(0, s.len() as int) =~= s);
    assert(s[0] == '{' as u8) by {
        assert(s =~= seq!['{' as u8] + render_tops(es) + seq!['}' as u8]);
    }
    if es.len() == 0 {
        assert(render_tops(es) == Seq::<u8>::empty());
        assert(s =~= seq!['{' as u8, '}' as u8]);
        assert(s[1] == '}' as u8 && s.len() == 2);
        assert(normalize_tops(es) =~= es);
    } else {
        lemma_render_tops_decompose(es);
        let rf = render_top(es[0]);
        let rest = tops_tail_render(es.drop_first());
        assert(s =~= seq!['{' as u8] + (rf + rest));
        lemma_subrange_split(s, 0, seq!['{' as u8], rf + rest);
        lemma_subrange_split(s, 1, rf, rest);
        assert(rf[0] == '"' as u8) by {
            let rk = render_string(es[0].key);
            assert(rf =~= rk + (seq![':' as u8] + render_top_value(es[0].value)));
            assert(rf[0] == rk[0]);
            assert((seq!['"' as u8] + esc_all(es[0].key) + seq!['"' as u8])[0] == '"' as u8);
        }
        assert(s[1] == '"' as u8) by {
            assert(s.subrange(1, 1int + rf.len())[0] == rf[0]);
        }
        lemma_tops_tail_first(es.drop_first());
        assert(s[1int + rf.len()] == rest[0]) by {
            assert(s.subrange(1int + rf.len(), 1int + rf.len() + rest.len())[0] == rest[0]);
        }
        assert(!is_number_char(s[1int + rf.len()]));
        lemma_parse_render_top(s, 1, es[0]);
        lemma_parse_tops_tail(s, 1int + rf.len(), es.drop_first());
        let ne0 = TopV { key: es[0].key, value: normalize_top_value(es[0].value) };
        assert(seq![ne0] + normalize_tops(es.drop_first()) =~= normalize_tops(es));
        assert(1 + rf.len() + rest.len() == s.len());
    }
}

} // verus!
