//! Decimal rendering of integers and the JSON number grammar.
//!
//! Integer fields are rendered by this crate itself; floating-point fields
//! arrive pre-rendered as text and are only accepted when that text matches
//! the JSON number grammar checked here.

use vstd::prelude::*;

verus! {

/// The decimal digits of an unsigned value, most significant first.
pub open spec fn dec_u64(n: nat) -> Seq<u8>
    decreases n,
{
    if n < 10 {
        seq![(0x30 + n) as u8]
    } else {
        dec_u64(n / 10) + seq![(0x30 + n % 10) as u8]
    }
}

/// The decimal digits of a signed value, with a leading minus when negative.
pub open spec fn dec_i64(n: int) -> Seq<u8> {
    if n >= 0 {
        dec_u64(n as nat)
    } else {
        seq!['-' as u8] + dec_u64((-n) as nat)
    }
}

/// Append the decimal rendering of an unsigned value.
pub fn push_u64(out: &mut Vec<u8>, n: u64)
    ensures
        final(out)@ == old(out)@ + dec_u64(n as nat),
{
    let mut digits: Vec<u8> = Vec::new();
    let mut m: u64 = n;
    while m >= 10
        invariant
            dec_u64(n as nat) == dec_u64(m as nat) + digits@,
        decreases m,
    {
        let d: u8 = (m % 10) as u8;
        digits.insert(0, 0x30 + d);
        proof {
            assert(dec_u64(m as nat) == dec_u64((m as nat) / 10) + seq![(0x30 + (m as nat) % 10) as u8]);
            assert(dec_u64((m / 10) as nat) + digits@ =~= dec_u64(n as nat));
        }
        m = m / 10;
    }
    digits.insert(0, 0x30 + m as u8);
    proof {
        assert(dec_u64(m as nat) =~= seq![(0x30 + m as nat) as u8]);
        assert(digits@ =~= dec_u64(n as nat));
    }
    out.append(&mut digits);
}

/// Append the decimal rendering of a signed value.
pub fn push_i64(out: &mut Vec<u8>, n: i64)
    ensures
        final(out)@ == old(out)@ + dec_i64(n as int),
{
    if n >= 0 {
        push_u64(out, n as u64);
    } else {
        out.push('-' as u8);
        let m: u64 = ((-(n + 1)) as u64) + 1;
        proof {
            assert(m as nat == (-(n as int)) as nat);
        }
        push_u64(out, m);
        proof {
            assert(out@ =~= old(out)@ + dec_i64(n as int));
        }
    }
}

/// An ASCII decimal digit.
pub open spec fn is_digit(b: u8) -> bool {
    0x30 <= b <= 0x39
}

/// The first position at or after `i` that does not hold a digit.
pub open spec fn skip_digits(s: Seq<u8>, i: int) -> int
    decreases s.len() - i when 0 <= i <= s.len()
{
    if i < s.len() && is_digit(s[i]) {
        skip_digits(s, i + 1)
    } else {
        i
    }
}

pub proof fn lemma_skip_digits(s: Seq<u8>, i: int)
    requires
        0 <= i <= s.len(),
    ensures
        i <= skip_digits(s, i) <= s.len(),
        forall|k: int| i <= k < skip_digits(s, i) ==> is_digit(s[k]),
        skip_digits(s, i) < s.len() ==> !is_digit(s[skip_digits(s, i)]),
    decreases s.len() - i,
{
    if i < s.len() && is_digit(s[i]) {
        lemma_skip_digits(s, i + 1);
    }
}

/// A run that is all digits is skipped whole.
pub proof fn lemma_skip_digits_all(s: Seq<u8>, i: int, j: int)
    requires
        0 <= i <= j <= s.len(),
        forall|k: int| i <= k < j ==> is_digit(s[k]),
        j < s.len() ==> !is_digit(s[j]),
    ensures
        skip_digits(s, i) == j,
    decreases j - i,
{
    if i < j {
        lemma_skip_digits_all(s, i + 1, j);
    }
}

/// The grammar after the integer part: an optional fraction with at least
/// one digit, then an optional exponent, then the end of the text.
pub open spec fn number_after_int(s: Seq<u8>, i: int) -> bool {
    if i == s.len() {
        true
    } else if 0 <= i < s.len() && s[i] == '.' as u8 {
        skip_digits(s, i + 1) > i + 1 && number_exponent(s, skip_digits(s, i + 1))
    } else {
        number_exponent(s, i)
    }
}

/// The optional exponent, which must run to the end of the text.
pub open spec fn number_exponent(s: Seq<u8>, i: int) -> bool {
    if i == s.len() {
        true
    } else if 0 <= i < s.len() && (s[i] == 'e' as u8 || s[i] == 'E' as u8) {
        let j = if i + 1 < s.len() && (s[i + 1] == '+' as u8 || s[i + 1] == '-' as u8) {
            i + 2
        } else {
            i + 1
        };
        skip_digits(s, j) > j && skip_digits(s, j) == s.len()
    } else {
        false
    }
}

/// Whether a byte string is a JSON number: an optional minus, an integer
/// part without a superfluous leading zero, an optional fraction and an
/// optional exponent.
pub open spec fn is_number_text(s: Seq<u8>) -> bool {
    let i = if s.len() > 0 && s[0] == '-' as u8 {
        1int
    } else {
        0int
    };
    if i < s.len() && s[i] == '0' as u8 {
        number_after_int(s, i + 1)
    } else if i < s.len() && is_digit(s[i]) {
        number_after_int(s, skip_digits(s, i))
    } else {
        false
    }
}

/// Advance past any run of decimal digits.
pub fn skip_digits_exec(s: &Vec<u8>, i: usize) -> (j: usize)
    requires
        i <= s@.len(),
    ensures
        j as int == skip_digits(s@, i as int),
        i <= j <= s@.len(),
{
    let mut j: usize = i;
    while j < s.len() && 0x30 <= s[j] && s[j] <= 0x39
        invariant
            i <= j <= s@.len(),
            skip_digits(s@, i as int) == skip_digits(s@, j as int),
        decreases s@.len() - j,
    {
        j = j + 1;
    }
    proof {
        lemma_skip_digits(s@, j as int);
    }
    j
}

/// Check a byte string against the JSON number grammar.
pub fn check_number_text(s: &Vec<u8>) -> (r: bool)
    ensures
        r == is_number_text(s@),
{
    let n = s.len();
    let start: usize = if n > 0 && s[0] == '-' as u8 {
        1
    } else {
        0
    };
    if start >= n {
        return false;
    }
    let after_int: usize = if s[start] == '0' as u8 {
        start + 1
    } else if 0x30 <= s[start] && s[start] <= 0x39 {
        skip_digits_exec(s, start)
    } else {
        return false;
    };
    // fraction
    let after_frac: usize = if after_int < n && s[after_int] == '.' as u8 {
        let j = skip_digits_exec(s, after_int + 1);
        if j == after_int + 1 {
            return false;
        }
        j
    } else {
        after_int
    };
    // exponent
    if after_frac == n {
        return true;
    }
    if s[after_frac] == 'e' as u8 || s[after_frac] == 'E' as u8 {
        let k: usize = if after_frac + 1 < n && (s[after_frac + 1] == '+' as u8 || s[after_frac + 1] == '-' as u8) {
            after_frac + 2
        } else {
            after_frac + 1
        };
        let m = skip_digits_exec(s, k);
        m > k && m == n
    } else {
        false
    }
}

} // verus!
