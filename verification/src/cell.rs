//! The cell value model: every token coerces to exactly one of three
//! variants, preferring an unsigned integer, then a floating-point literal,
//! then plain text.
//!
//! A token is an unsigned integer when it is one or more decimal digits
//! (no sign, no whitespace) whose value fits in 32 bits. A token is a
//! floating-point literal when it is in the grammar that the standard
//! library's float parser accepts:
//!
//! ```text
//! Float  ::= Sign? ( 'inf' | 'infinity' | 'nan' | Number )
//! Number ::= ( Digit+ | Digit+ '.' Digit* | Digit* '.' Digit+ ) Exp?
//! Exp    ::= ('e' | 'E') Sign? Digit+
//! Sign   ::= '+' | '-'
//! ```
//!
//! with `inf`, `infinity` and `nan` matched case-insensitively. The verifier
//! gives floating point no model, so a float cell keeps the accepted token
//! verbatim and leaves realizing its numeric value to the caller.

use vstd::prelude::*;

verus! {

/// A single field value within a row.
#[derive(Debug, PartialEq, Eq)]
pub enum CellValue {
    /// A token of decimal digits whose value fits in 32 bits.
    UnsignedInteger(u32),
    /// A token in the floating-point grammar, kept as written.
    Float(String),
    /// Any other token, kept unchanged (including the empty token).
    Text(String),
}

/// The mathematical value of a cell: as `CellValue`, with text as
/// character sequences.
pub enum CellModel {
    UnsignedInteger(u32),
    Float(Seq<char>),
    Text(Seq<char>),
}

impl View for CellValue {
    type V = CellModel;

    open spec fn view(&self) -> CellModel {
        match self {
            CellValue::UnsignedInteger(n) => CellModel::UnsignedInteger(*n),
            CellValue::Float(s) => CellModel::Float(s@),
            CellValue::Text(s) => CellModel::Text(s@),
        }
    }
}

impl DeepView for CellValue {
    type V = CellModel;

    open spec fn deep_view(&self) -> CellModel {
        self.view()
    }
}

/// Whether `c` is a decimal digit.
pub open spec fn is_digit(c: char) -> bool {
    48 <= c as u32 <= 57
}

/// The numeric value of a digit character.
pub open spec fn digit_val(c: char) -> int {
    c as u32 - 48
}

/// Whether every character of `s` is a decimal digit.
pub open spec fn all_digits(s: Seq<char>) -> bool {
    forall|i: int| 0 <= i < s.len() ==> is_digit(#[trigger] s[i])
}

/// The value of a digit string read in base ten.
pub open spec fn dec_value(s: Seq<char>) -> int
    decreases s.len(),
{
    if s.len() == 0 {
        0
    } else {
        dec_value(s.drop_last()) * 10 + digit_val(s.last())
    }
}

/// Whether a token is an unsigned-integer token: nonempty, digits only,
/// value within 32 bits.
pub open spec fn is_u32_token(s: Seq<char>) -> bool {
    s.len() > 0 && all_digits(s) && dec_value(s) <= u32::MAX
}

proof fn lemma_dec_value_nonneg(s: Seq<char>)
    requires
        all_digits(s),
    ensures
        dec_value(s) >= 0,
    decreases s.len(),
{
    if s.len() > 0 {
        assert(all_digits(s.drop_last()));
        lemma_dec_value_nonneg(s.drop_last());
    }
}

/// Reading more digits never shrinks the value.
proof fn lemma_dec_value_prefix_le(s: Seq<char>, i: int)
    requires
        all_digits(s),
        0 <= i <= s.len(),
    ensures
        dec_value(s.take(i)) <= dec_value(s),
    decreases s.len() - i,
{
    if i < s.len() {
        let t = s.take(i + 1);
        assert(t.drop_last() =~= s.take(i));
        assert(all_digits(s.take(i)));
        lemma_dec_value_nonneg(s.take(i));
        assert(dec_value(t) == dec_value(s.take(i)) * 10 + digit_val(s[i]));
        lemma_dec_value_prefix_le(s, i + 1);
    } else {
        assert(s.take(i) =~= s);
    }
}

/// Parses a token as an unsigned 32-bit integer under the strict rule:
/// digits only, value within range.
pub fn parse_u32(v: &[char]) -> (r: Option<u32>)
    ensures
        is_u32_token(v@) ==> r == Some(dec_value(v@) as u32),
        !is_u32_token(v@) ==> r is None,
{
    if v.len() == 0 {
        return None;
    }
    let mut acc: u32 = 0;
    let mut i: usize = 0;
    while i < v.len()
        invariant
            0 < v@.len(),
            i <= v@.len(),
            all_digits(v@.take(i as int)),
            acc == dec_value(v@.take(i as int)),
        decreases v@.len() - i,
    {
        let c = v[i];
        let u = c as u32;
        proof {
            assert(v@.take(i + 1).drop_last() =~= v@.take(i as int));
        }
        if u < 48 || u > 57 {
            assert(!is_digit(v@[i as int]));
            return None;
        }
        let d = u - 48;
        let wide: u64 = acc as u64 * 10 + d as u64;
        if wide > u32::MAX as u64 {
            proof {
                assert(dec_value(v@.take(i + 1)) == wide);
                if all_digits(v@) {
                    lemma_dec_value_prefix_le(v@, i + 1);
                }
            }
            return None;
        }
        acc = wide as u32;
        i += 1;
    }
    proof {
        assert(v@.take(i as int) =~= v@);
    }
    Some(acc)
}

/// Whether `c` equals the lower-case letter `lower`, ignoring ASCII case.
pub open spec fn matches_ci(c: char, lower: char) -> bool {
    c == lower || c as u32 + 32 == lower as u32
}

/// Whether `c` is a sign character.
pub open spec fn is_sign(c: char) -> bool {
    c == '+' || c == '-'
}

/// `s` without its leading sign, if any.
pub open spec fn strip_sign(s: Seq<char>) -> Seq<char> {
    if s.len() > 0 && is_sign(s[0]) {
        s.skip(1)
    } else {
        s
    }
}

/// Whether `t` spells `inf`, ignoring case.
pub open spec fn is_inf(t: Seq<char>) -> bool {
    t.len() == 3 && matches_ci(t[0], 'i') && matches_ci(t[1], 'n') && matches_ci(t[2], 'f')
}

/// Whether `t` spells `infinity`, ignoring case.
pub open spec fn is_infinity(t: Seq<char>) -> bool {
    &&& t.len() == 8
    &&& matches_ci(t[0], 'i')
    &&& matches_ci(t[1], 'n')
    &&& matches_ci(t[2], 'f')
    &&& matches_ci(t[3], 'i')
    &&& matches_ci(t[4], 'n')
    &&& matches_ci(t[5], 'i')
    &&& matches_ci(t[6], 't')
    &&& matches_ci(t[7], 'y')
}

/// Whether `t` spells `nan`, ignoring case.
pub open spec fn is_nan(t: Seq<char>) -> bool {
    t.len() == 3 && matches_ci(t[0], 'n') && matches_ci(t[1], 'a') && matches_ci(t[2], 'n')
}

/// Whether `c` introduces an exponent.
pub open spec fn is_exp_char(c: char) -> bool {
    c == 'e' || c == 'E'
}

/// Whether `t` is a mantissa: digits with at most one decimal point and
/// at least one digit.
pub open spec fn is_mantissa(t: Seq<char>) -> bool {
    &&& forall|i: int| 0 <= i < t.len() ==> is_digit(#[trigger] t[i]) || t[i] == '.'
    &&& exists|i: int| 0 <= i < t.len() && is_digit(#[trigger] t[i])
    &&& forall|i: int, j: int| #![trigger t[i], t[j]] 0 <= i < j < t.len() && t[i] == '.' ==> t[j] != '.'
}

/// Whether `t` is an exponent body: an optional sign then one or more digits.
pub open spec fn is_exp_suffix(t: Seq<char>) -> bool {
    let u = strip_sign(t);
    u.len() > 0 && all_digits(u)
}

/// Whether `t` is a number: a mantissa with an optional exponent part.
pub open spec fn is_number(t: Seq<char>) -> bool {
    ||| is_mantissa(t)
    ||| exists|i: int|
        0 <= i < t.len() && is_exp_char(#[trigger] t[i]) && is_mantissa(t.take(i))
            && is_exp_suffix(t.skip(i + 1))
}

/// Whether a token is in the floating-point grammar.
pub open spec fn is_float_token(s: Seq<char>) -> bool {
    let t = strip_sign(s);
    is_inf(t) || is_infinity(t) || is_nan(t) || is_number(t)
}

/// Case-insensitive comparison against a lower-case letter.
fn ci(c: char, lower: char) -> (r: bool)
    ensures
        r == matches_ci(c, lower),
{
    c == lower || c as u32 + 32 == lower as u32
}

/// Finds the first exponent character of `t`, if any.
fn find_exp(t: &[char]) -> (r: Option<usize>)
    ensures
        match r {
            Some(k) => 0 <= k < t@.len() && is_exp_char(t@[k as int]) && forall|i: int|
                0 <= i < k ==> !is_exp_char(#[trigger] t@[i]),
            None => forall|i: int| 0 <= i < t@.len() ==> !is_exp_char(#[trigger] t@[i]),
        },
{
    let mut i: usize = 0;
    while i < t.len()
        invariant
            i <= t@.len(),
            forall|j: int| 0 <= j < i ==> !is_exp_char(#[trigger] t@[j]),
        decreases t@.len() - i,
    {
        let c = t[i];
        if c == 'e' || c == 'E' {
            return Some(i);
        }
        i += 1;
    }
    None
}

/// Whether `t` is a mantissa, checked left to right.
fn is_mantissa_chars(t: &[char]) -> (r: bool)
    ensures
        r == is_mantissa(t@),
{
    let mut seen_digit = false;
    let mut seen_dot = false;
    let mut i: usize = 0;
    while i < t.len()
        invariant
            i <= t@.len(),
            forall|j: int| 0 <= j < i ==> is_digit(#[trigger] t@[j]) || t@[j] == '.',
            seen_digit == exists|j: int| 0 <= j < i && is_digit(#[trigger] t@[j]),
            seen_dot == exists|j: int| 0 <= j < i && #[trigger] t@[j] == '.',
            forall|j: int, k: int|
                #![trigger t@[j], t@[k]]
                0 <= j < k < i && t@[j] == '.' ==> t@[k] != '.',
        decreases t@.len() - i,
    {
        let c = t[i];
        let u = c as u32;
        if 48 <= u && u <= 57 {
            proof {
                assert(is_digit(t@[i as int]));
            }
            seen_digit = true;
        } else if c == '.' {
            if seen_dot {
                return false;
            }
            seen_dot = true;
        } else {
            proof {
                assert(!is_digit(t@[i as int]) && t@[i as int] != '.');
            }
            return false;
        }
        i += 1;
    }
    seen_digit
}

/// Whether `t` is an exponent body, checked left to right.
fn is_exp_suffix_chars(t: &[char]) -> (r: bool)
    ensures
        r == is_exp_suffix(t@),
{
    let start: usize = if t.len() > 0 && (t[0] == '+' || t[0] == '-') {
        1
    } else {
        0
    };
    proof {
        assert(strip_sign(t@) =~= t@.skip(start as int));
    }
    if t.len() == start {
        return false;
    }
    let mut i: usize = start;
    while i < t.len()
        invariant
            start <= i <= t@.len(),
            start < t@.len(),
            strip_sign(t@) =~= t@.skip(start as int),
            forall|j: int| start <= j < i ==> is_digit(#[trigger] t@[j]),
        decreases t@.len() - i,
    {
        let c = t[i];
        let u = c as u32;
        if u < 48 || u > 57 {
            proof {
                assert(!is_digit(strip_sign(t@)[i - start]));
            }
            return false;
        }
        proof {
            assert(is_digit(t@[i as int]));
        }
        i += 1;
    }
    proof {
        assert forall|j: int| 0 <= j < strip_sign(t@).len() implies is_digit(
            #[trigger] strip_sign(t@)[j],
        ) by {
            assert(strip_sign(t@)[j] == t@[j + start]);
        }
    }
    true
}

/// Whether a token is in the floating-point grammar, checked left to right.
pub fn is_float_chars(v: &[char]) -> (r: bool)
    ensures
        r == is_float_token(v@),
{
    let start: usize = if v.len() > 0 && (v[0] == '+' || v[0] == '-') {
        1
    } else {
        0
    };
    let t: &[char] = &v[start..v.len()];
    proof {
        assert(t@ =~= strip_sign(v@));
    }
    let n = t.len();
    if n == 3 && ci(t[0], 'i') && ci(t[1], 'n') && ci(t[2], 'f') {
        return true;
    }
    if n == 8 && ci(t[0], 'i') && ci(t[1], 'n') && ci(t[2], 'f') && ci(t[3], 'i') && ci(t[4], 'n')
        && ci(t[5], 'i') && ci(t[6], 't') && ci(t[7], 'y') {
        return true;
    }
    if n == 3 && ci(t[0], 'n') && ci(t[1], 'a') && ci(t[2], 'n') {
        return true;
    }
    match find_exp(t) {
        None => {
            let r = is_mantissa_chars(t);
            proof {
                assert(!(exists|i: int|
                    0 <= i < t@.len() && is_exp_char(#[trigger] t@[i]) && is_mantissa(t@.take(i))
                        && is_exp_suffix(t@.skip(i + 1))));
            }
            r
        },
        Some(k) => {
            let m = is_mantissa_chars(&t[0..k]);
            let e = is_exp_suffix_chars(&t[k + 1..t.len()]);
            proof {
                assert(t@.subrange(0, k as int) =~= t@.take(k as int));
                assert(t@.subrange(k + 1, t@.len() as int) =~= t@.skip(k + 1));
                if m && e {
                    assert(is_exp_char(t@[k as int]) && is_mantissa(t@.take(k as int))
                        && is_exp_suffix(t@.skip(k + 1)));
                    assert(is_number(t@));
                } else {
                    assert(!is_mantissa(t@)) by {
                        assert(!is_digit(t@[k as int]) && t@[k as int] != '.');
                    }
                    assert forall|i: int|
                        0 <= i < t@.len() && is_exp_char(#[trigger] t@[i]) implies !(is_mantissa(
                        t@.take(i),
                    ) && is_exp_suffix(t@.skip(i + 1))) by {
                        if i > k {
                            assert(t@.take(i)[k as int] == t@[k as int]);
                            assert(!is_digit(t@[k as int]) && t@[k as int] != '.');
                            assert(!is_mantissa(t@.take(i)));
                        }
                    }
                    assert(!is_number(t@));
                }
            }
            m && e
        },
    }
}

/// The coercion rule: an unsigned integer if the token parses as one, else
/// a float if the token is in the floating-point grammar, else text holding
/// the token unchanged.
pub open spec fn spec_coerce(s: Seq<char>) -> CellModel {
    if is_u32_token(s) {
        CellModel::UnsignedInteger(dec_value(s) as u32)
    } else if is_float_token(s) {
        CellModel::Float(s)
    } else {
        CellModel::Text(s)
    }
}

/// Coerces one token, preferring an unsigned integer over a float over text.
pub fn coerce_chars(v: &[char]) -> (r: CellValue)
    ensures
        r@ == spec_coerce(v@),
{
    match parse_u32(v) {
        Some(n) => CellValue::UnsignedInteger(n),
        None => {
            let s = crate::split::string_from_chars(v);
            if is_float_chars(v) {
                CellValue::Float(s)
            } else {
                CellValue::Text(s)
            }
        },
    }
}

/// Coerces one token given as a string.
pub fn coerce(token: &str) -> (r: CellValue)
    ensures
        r@ == spec_coerce(token@),
{
    let cs = crate::split::chars_vec(token);
    coerce_chars(cs.as_slice())
}

} // verus!
