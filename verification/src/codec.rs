//! The embedded structured-text columns: tag lists, model lists, sampling
//! parameters and scores are stored as JSON text inside otherwise
//! relational rows.  Encoding is canonical — object fields in declaration
//! order, no added whitespace — and decoding degrades instead of failing:
//! an unreadable parameters column falls back to the documented defaults,
//! an unreadable list to the empty list, an unreadable score to none.

use vstd::prelude::*;

use crate::model::ModelParameters;
use crate::model::ScoringResult;
use crate::model::ScoringResultV;
use crate::model::ModelParametersV;

verus! {

/// A decimal digit.
pub open spec fn is_digit(c: char) -> bool {
    48 <= c as u32 <= 57
}

/// A character that may appear inside a decimal literal.
pub open spec fn is_num_char(c: char) -> bool {
    is_digit(c) || c == '-' || c == '+' || c == '.' || c == 'e' || c == 'E'
}

/// The first position at or after `i` that does not hold a digit.
pub open spec fn digits_end(s: Seq<char>, i: int) -> int
    decreases s.len() - i,
{
    if 0 <= i < s.len() && is_digit(s[i]) {
        digits_end(s, i + 1)
    } else {
        i
    }
}

/// The first position at or after `i` that does not hold a number
/// character.
pub open spec fn num_end(s: Seq<char>, i: int) -> int
    decreases s.len() - i,
{
    if 0 <= i < s.len() && is_num_char(s[i]) {
        num_end(s, i + 1)
    } else {
        i
    }
}

/// What may stand in a numeric column: an optional minus, an integer part,
/// an optional fraction, an optional exponent — a JSON-style decimal
/// literal.
pub open spec fn is_number(s: Seq<char>) -> bool {
    let a = if s.len() > 0 && s[0] == '-' {
        1int
    } else {
        0int
    };
    let b = digits_end(s, a);
    if b == a {
        false
    } else {
        let c = if b < s.len() && s[b] == '.' {
            digits_end(s, b + 1)
        } else {
            b
        };
        if c == b + 1 && b < s.len() && s[b] == '.' {
            false
        } else {
            let d = if c < s.len() && (s[c] == 'e' || s[c] == 'E') {
                let e = if c + 1 < s.len() && (s[c + 1] == '+' || s[c + 1] == '-') {
                    c + 2
                } else {
                    c + 1
                };
                if digits_end(s, e) == e {
                    -1int
                } else {
                    digits_end(s, e)
                }
            } else {
                c
            };
            d == s.len()
        }
    }
}

/// The value of a run of digits.
pub open spec fn dec_value(s: Seq<char>) -> int
    decreases s.len(),
{
    if s.len() == 0 {
        0
    } else {
        dec_value(s.drop_last()) * 10 + (s.last() as u32 - 48)
    }
}

/// Every character of a non-empty text is a digit.
pub open spec fn all_digits(s: Seq<char>) -> bool {
    s.len() > 0 && forall|i: int| 0 <= i < s.len() ==> is_digit(#[trigger] s[i])
}

/// The integer a plain decimal text stands for, if it is one.
pub open spec fn int_of_text(s: Seq<char>) -> Option<int> {
    if s.len() > 0 && s[0] == '-' {
        if all_digits(s.subrange(1, s.len() as int)) {
            Some(-dec_value(s.subrange(1, s.len() as int)))
        } else {
            None
        }
    } else if all_digits(s) {
        Some(dec_value(s))
    } else {
        None
    }
}

/// The digit character of one decimal digit.
pub open spec fn digit_char(d: int) -> char {
    if d == 0 {
        '0'
    } else if d == 1 {
        '1'
    } else if d == 2 {
        '2'
    } else if d == 3 {
        '3'
    } else if d == 4 {
        '4'
    } else if d == 5 {
        '5'
    } else if d == 6 {
        '6'
    } else if d == 7 {
        '7'
    } else if d == 8 {
        '8'
    } else {
        '9'
    }
}

/// The digits of a non-negative integer, empty for zero.
pub open spec fn dec_digits_rec(n: int) -> Seq<char>
    decreases n,
{
    if n <= 0 {
        Seq::empty()
    } else {
        dec_digits_rec(n / 10).push(digit_char(n % 10))
    }
}

/// The canonical decimal text of an integer.
pub open spec fn int_text(n: int) -> Seq<char> {
    if n == 0 {
        seq!['0']
    } else if n < 0 {
        seq!['-'] + dec_digits_rec(-n)
    } else {
        dec_digits_rec(n)
    }
}

/// The documented fallback for a parameters column that does not decode:
/// temperature 0.7, top-p 1.0, 1024 tokens, no penalties.
pub open spec fn default_parameters() -> ModelParametersV {
    ModelParametersV {
        temperature: "0.7"@,
        top_p: "1.0"@,
        max_tokens: 1024,
        frequency_penalty: "0.0"@,
        presence_penalty: "0.0"@,
    }
}

impl ModelParametersV {
    /// Every numeric field holds a decimal literal.
    pub open spec fn wf(self) -> bool {
        &&& is_number(self.temperature)
        &&& is_number(self.top_p)
        &&& is_number(self.frequency_penalty)
        &&& is_number(self.presence_penalty)
    }
}

/// The canonical JSON text of a parameters record.
pub open spec fn params_json(p: ModelParametersV) -> Seq<char> {
    "{\"temperature\":"@ + p.temperature + ",\"topP\":"@ + p.top_p + ",\"maxTokens\":"@ + int_text(
        p.max_tokens as int,
    ) + ",\"frequencyPenalty\":"@ + p.frequency_penalty + ",\"presencePenalty\":"@
        + p.presence_penalty + "}"@
}

/// The text starting at `i` begins with `lit`.
pub open spec fn begins_with(s: Seq<char>, i: int, lit: Seq<char>) -> bool {
    0 <= i && i + lit.len() <= s.len() && s.subrange(i, i + lit.len()) == lit
}

/// What a stored parameters column decodes to: the canonical object shape
/// with five numeric fields, or nothing.
pub open spec fn spec_decode_params(s: Seq<char>) -> Option<ModelParametersV> {
    let l1 = "{\"temperature\":"@;
    let l2 = ",\"topP\":"@;
    let l3 = ",\"maxTokens\":"@;
    let l4 = ",\"frequencyPenalty\":"@;
    let l5 = ",\"presencePenalty\":"@;
    let l6 = "}"@;
    if !begins_with(s, 0, l1) {
        None
    } else {
        let a1 = l1.len() as int;
        let b1 = num_end(s, a1);
        let t1 = s.subrange(a1, b1);
        if !is_number(t1) || !begins_with(s, b1, l2) {
            None
        } else {
            let a2 = b1 + l2.len();
            let b2 = num_end(s, a2);
            let t2 = s.subrange(a2, b2);
            if !is_number(t2) || !begins_with(s, b2, l3) {
                None
            } else {
                let a3 = b2 + l3.len();
                let b3 = num_end(s, a3);
                let t3 = s.subrange(a3, b3);
                match int_of_text(t3) {
                    None => None,
                    Some(v) => {
                        if v < i64::MIN || v > i64::MAX || !begins_with(s, b3, l4) {
                            None
                        } else {
                            let a4 = b3 + l4.len();
                            let b4 = num_end(s, a4);
                            let t4 = s.subrange(a4, b4);
                            if !is_number(t4) || !begins_with(s, b4, l5) {
                                None
                            } else {
                                let a5 = b4 + l5.len();
                                let b5 = num_end(s, a5);
                                let t5 = s.subrange(a5, b5);
                                if !is_number(t5) || !begins_with(s, b5, l6) || b5 + l6.len()
                                    != s.len() {
                                    None
                                } else {
                                    Some(
                                        ModelParametersV {
                                            temperature: t1,
                                            top_p: t2,
                                            max_tokens: v as i64,
                                            frequency_penalty: t4,
                                            presence_penalty: t5,
                                        },
                                    )
                                }
                            }
                        }
                    },
                }
            }
        }
    }
}


// ------------------------------------------------------------------
// Scanning helpers.
// ------------------------------------------------------------------

/// `digits_end` is the first position at or after `i` without a digit.
proof fn lemma_digits_end_char(s: Seq<char>, i: int)
    requires
        0 <= i <= s.len(),
    ensures
        i <= digits_end(s, i) <= s.len(),
        forall|k: int| i <= k < digits_end(s, i) ==> is_digit(#[trigger] s[k]),
        digits_end(s, i) < s.len() ==> !is_digit(s[digits_end(s, i)]),
    decreases s.len() - i,
{
    if i < s.len() && is_digit(s[i]) {
        lemma_digits_end_char(s, i + 1);
    }
}

/// Any position bounding a digit run from the right is `digits_end`.
proof fn lemma_digits_end_unique(s: Seq<char>, i: int, j: int)
    requires
        0 <= i <= j <= s.len(),
        forall|k: int| i <= k < j ==> is_digit(#[trigger] s[k]),
        j < s.len() ==> !is_digit(s[j]),
    ensures
        digits_end(s, i) == j,
    decreases s.len() - i,
{
    if i < s.len() && is_digit(s[i]) {
        lemma_digits_end_unique(s, i + 1, j);
    }
}

/// `num_end` is the first position at or after `i` without a number
/// character.
proof fn lemma_num_end_char(s: Seq<char>, i: int)
    requires
        0 <= i <= s.len(),
    ensures
        i <= num_end(s, i) <= s.len(),
        forall|k: int| i <= k < num_end(s, i) ==> is_num_char(#[trigger] s[k]),
        num_end(s, i) < s.len() ==> !is_num_char(s[num_end(s, i)]),
    decreases s.len() - i,
{
    if i < s.len() && is_num_char(s[i]) {
        lemma_num_end_char(s, i + 1);
    }
}

/// Any position bounding a number-character run from the right is
/// `num_end`.
proof fn lemma_num_end_unique(s: Seq<char>, i: int, j: int)
    requires
        0 <= i <= j <= s.len(),
        forall|k: int| i <= k < j ==> is_num_char(#[trigger] s[k]),
        j < s.len() ==> !is_num_char(s[j]),
    ensures
        num_end(s, i) == j,
    decreases s.len() - i,
{
    if i < s.len() && is_num_char(s[i]) {
        lemma_num_end_unique(s, i + 1, j);
    }
}

/// Is this character a digit?
fn digit_at(s: &str, i: usize) -> (b: bool)
    requires
        i < s@.len(),
    ensures
        b == is_digit(s@[i as int]),
{
    let c = s.get_char(i);
    let u = c as u32;
    48 <= u && u <= 57
}

/// Is this character admissible inside a decimal literal?
fn num_char_at(s: &str, i: usize) -> (b: bool)
    requires
        i < s@.len(),
    ensures
        b == is_num_char(s@[i as int]),
{
    let c = s.get_char(i);
    let u = c as u32;
    (48 <= u && u <= 57) || c == '-' || c == '+' || c == '.' || c == 'e' || c == 'E'
}

/// Scan past digits.
fn scan_digits(s: &str, i: usize, n: usize) -> (j: usize)
    requires
        i <= n,
        n == s@.len(),
    ensures
        j == digits_end(s@, i as int),
        i <= j <= n,
{
    let mut j = i;
    while j < n && digit_at(s, j)
        invariant
            i <= j <= n,
            n == s@.len(),
            forall|k: int| i <= k < j ==> is_digit(#[trigger] s@[k]),
        decreases n - j,
    {
        j += 1;
    }
    proof {
        lemma_digits_end_unique(s@, i as int, j as int);
    }
    j
}

/// Scan past number characters.
fn scan_num(s: &str, i: usize, n: usize) -> (j: usize)
    requires
        i <= n,
        n == s@.len(),
    ensures
        j == num_end(s@, i as int),
        i <= j <= n,
{
    let mut j = i;
    while j < n && num_char_at(s, j)
        invariant
            i <= j <= n,
            n == s@.len(),
            forall|k: int| i <= k < j ==> is_num_char(#[trigger] s@[k]),
        decreases n - j,
    {
        j += 1;
    }
    proof {
        lemma_num_end_unique(s@, i as int, j as int);
    }
    j
}

/// Does the text hold a decimal literal?
pub fn check_number(s: &str) -> (b: bool)
    ensures
        b == is_number(s@),
{
    let n = s.unicode_len();
    let a: usize = if n > 0 && s.get_char(0) == '-' {
        1
    } else {
        0
    };
    if a > n {
        return false;
    }
    let b1 = scan_digits(s, a, n);
    if b1 == a {
        return false;
    }
    let c: usize = if b1 < n && s.get_char(b1) == '.' {
        scan_digits(s, b1 + 1, n)
    } else {
        b1
    };
    if b1 < n && s.get_char(b1) == '.' && c == b1 + 1 {
        return false;
    }
    if c < n && (s.get_char(c) == 'e' || s.get_char(c) == 'E') {
        let e: usize = if c + 1 < n && (s.get_char(c + 1) == '+' || s.get_char(c + 1) == '-') {
            c + 2
        } else {
            c + 1
        };
        if e > n {
            return false;
        }
        let d = scan_digits(s, e, n);
        if d == e {
            return false;
        }
        d == n
    } else {
        c == n
    }
}

/// Does the text starting at `i` begin with `lit`?
fn match_lit(s: &str, i: usize, lit: &str) -> (b: bool)
    requires
        i <= s@.len(),
    ensures
        b == begins_with(s@, i as int, lit@),
{
    let n = s.unicode_len();
    let m = lit.unicode_len();
    if m > n - i {
        return false;
    }
    let mut k: usize = 0;
    while k < m
        invariant
            k <= m,
            m == lit@.len(),
            n == s@.len(),
            i + m <= n,
            forall|t: int| 0 <= t < k ==> s@[i + t] == #[trigger] lit@[t],
        decreases m - k,
    {
        if !(s.get_char(i + k) == lit.get_char(k)) {
            proof {
                assert(s@.subrange(i as int, i + lit@.len()) != lit@) by {
                    if s@.subrange(i as int, i + lit@.len()) == lit@ {
                        assert(s@.subrange(i as int, i + lit@.len())[k as int] == lit@[k as int]);
                    }
                }
            }
            return false;
        }
        k += 1;
    }
    proof {
        assert(s@.subrange(i as int, i + lit@.len()) =~= lit@);
    }
    true
}

// ------------------------------------------------------------------
// Plain integers in decimal text.
// ------------------------------------------------------------------

/// Digit runs have non-negative values.
proof fn lemma_dec_value_nonneg(s: Seq<char>)
    requires
        forall|i: int| 0 <= i < s.len() ==> is_digit(#[trigger] s[i]),
    ensures
        dec_value(s) >= 0,
    decreases s.len(),
{
    if s.len() > 0 {
        assert forall|i: int| 0 <= i < s.drop_last().len() implies is_digit(
            #[trigger] s.drop_last()[i],
        ) by {
            assert(s[i] == s.drop_last()[i]);
        }
        lemma_dec_value_nonneg(s.drop_last());
        assert(is_digit(s.last()));
    }
}

/// A digit run is worth at least any of its prefixes.
proof fn lemma_dec_value_prefix(s: Seq<char>, k: int)
    requires
        0 <= k <= s.len(),
        forall|i: int| 0 <= i < s.len() ==> is_digit(#[trigger] s[i]),
    ensures
        dec_value(s.take(k)) <= dec_value(s),
    decreases s.len(),
{
    if k < s.len() {
        assert forall|i: int| 0 <= i < s.drop_last().len() implies is_digit(
            #[trigger] s.drop_last()[i],
        ) by {
            assert(s[i] == s.drop_last()[i]);
        }
        lemma_dec_value_prefix(s.drop_last(), k);
        assert(s.drop_last().take(k) =~= s.take(k));
        lemma_dec_value_nonneg(s.drop_last());
        assert(is_digit(s.last()));
    } else {
        assert(s.take(k) =~= s);
    }
}

/// Parse the digits in `[a, b)` (with an optional leading minus) into a
/// signed machine integer; values outside the range fail.
fn parse_i64(s: &str, a: usize, b: usize) -> (r: Option<i64>)
    requires
        a <= b <= s@.len(),
    ensures
        r == match int_of_text(s@.subrange(a as int, b as int)) {
            Some(v) => if i64::MIN <= v <= i64::MAX {
                Some(v as i64)
            } else {
                None::<i64>
            },
            None => None::<i64>,
        },
{
    let ghost t = s@.subrange(a as int, b as int);
    if a == b {
        return None;
    }
    let neg = s.get_char(a) == '-';
    let start: usize = if neg {
        a + 1
    } else {
        a
    };
    let ghost digits = s@.subrange(start as int, b as int);
    proof {
        if neg {
            assert(digits =~= t.subrange(1, t.len() as int));
        } else {
            assert(digits =~= t);
        }
    }
    if start == b {
        // a lone minus is no number
        return None;
    }
    let mut acc: u64 = 0;
    let mut k: usize = start;
    while k < b
        invariant
            a <= start <= k <= b,
            b <= s@.len(),
            start == if neg {
                a + 1
            } else {
                a as int
            },
            t == s@.subrange(a as int, b as int),
            neg == (t.len() > 0 && t[0] == '-'),
            digits == s@.subrange(start as int, b as int),
            digits == if neg {
                t.subrange(1, t.len() as int)
            } else {
                t
            },
            forall|m: int| start <= m < k ==> is_digit(#[trigger] s@[m]),
            acc as int == dec_value(digits.take(k - start)),
            acc <= 9223372036854775808u64,
        decreases b - k,
    {
        if !digit_at(s, k) {
            proof {
                assert(digits[k - start] == s@[k as int]);
                assert(!all_digits(digits));
            }
            return None;
        }
        let c = s.get_char(k);
        let d: u64 = (c as u32 as u64) - 48;
        proof {
            assert(digits.take(k + 1 - start).drop_last() =~= digits.take(k - start));
            assert(digits.take(k + 1 - start).last() == s@[k as int]);
            assert(dec_value(digits.take(k + 1 - start)) == acc as int * 10 + d as int);
        }
        if acc >= 1844674407370955161u64 {
            proof {
                assert(dec_value(digits.take(k + 1 - start)) > 9223372036854775808int);
                if all_digits(digits) {
                    assert forall|m: int| 0 <= m < digits.len() implies is_digit(
                        #[trigger] digits[m],
                    ) by {}
                    lemma_dec_value_prefix(digits, k + 1 - start);
                }
            }
            return None;
        }
        acc = acc * 10 + d;
        if acc > 9223372036854775808u64 {
            proof {
                if all_digits(digits) {
                    lemma_dec_value_prefix(digits, k + 1 - start);
                }
            }
            return None;
        }
        k += 1;
    }
    proof {
        assert(digits.take(b - start) =~= digits);
        assert forall|m: int| 0 <= m < digits.len() implies is_digit(#[trigger] digits[m]) by {
            assert(digits[m] == s@[start + m]);
        }
        assert(all_digits(digits));
    }
    if neg {
        if acc == 9223372036854775808u64 {
            proof {
                assert(int_of_text(t) == Some(-dec_value(digits)));
            }
            Some(i64::MIN)
        } else {
            proof {
                assert(int_of_text(t) == Some(-dec_value(digits)));
            }
            Some(-(acc as i64))
        }
    } else {
        proof {
            assert(int_of_text(t) == Some(dec_value(digits)));
        }
        if acc <= 9223372036854775807u64 {
            Some(acc as i64)
        } else {
            None
        }
    }
}

/// The digit character of one decimal digit, as text.
fn digit_str(d: u64) -> (r: &'static str)
    requires
        d < 10,
    ensures
        r@ == seq![digit_char(d as int)],
{
    proof {
        reveal_strlit("0");
        reveal_strlit("1");
        reveal_strlit("2");
        reveal_strlit("3");
        reveal_strlit("4");
        reveal_strlit("5");
        reveal_strlit("6");
        reveal_strlit("7");
        reveal_strlit("8");
        reveal_strlit("9");
    }
    if d == 0 {
        proof {
            assert("0"@ =~= seq![digit_char(0)]);
        }
        "0"
    } else if d == 1 {
        proof {
            assert("1"@ =~= seq![digit_char(1)]);
        }
        "1"
    } else if d == 2 {
        proof {
            assert("2"@ =~= seq![digit_char(2)]);
        }
        "2"
    } else if d == 3 {
        proof {
            assert("3"@ =~= seq![digit_char(3)]);
        }
        "3"
    } else if d == 4 {
        proof {
            assert("4"@ =~= seq![digit_char(4)]);
        }
        "4"
    } else if d == 5 {
        proof {
            assert("5"@ =~= seq![digit_char(5)]);
        }
        "5"
    } else if d == 6 {
        proof {
            assert("6"@ =~= seq![digit_char(6)]);
        }
        "6"
    } else if d == 7 {
        proof {
            assert("7"@ =~= seq![digit_char(7)]);
        }
        "7"
    } else if d == 8 {
        proof {
            assert("8"@ =~= seq![digit_char(8)]);
        }
        "8"
    } else {
        proof {
            assert("9"@ =~= seq![digit_char(9)]);
        }
        "9"
    }
}

/// Append the digits of a non-negative integer (nothing for zero).
fn push_digits(out: &mut String, m: u64)
    ensures
        final(out)@ == old(out)@ + dec_digits_rec(m as int),
    decreases m,
{
    if m > 0 {
        push_digits(out, m / 10);
        out.append(digit_str(m % 10));
        proof {
            assert(final(out)@ =~= old(out)@ + dec_digits_rec(m as int));
        }
    } else {
        proof {
            assert(final(out)@ =~= old(out)@ + dec_digits_rec(0));
        }
    }
}

/// Append the canonical decimal text of a signed integer.
fn append_i64(out: &mut String, n: i64)
    ensures
        final(out)@ == old(out)@ + int_text(n as int),
{
    if n == 0 {
        out.append("0");
        proof {
            reveal_strlit("0");
            assert(final(out)@ =~= old(out)@ + int_text(0));
        }
    } else if n < 0 {
        out.append("-");
        let m: u64 = ((-(n + 1)) as u64) + 1;
        proof {
            reveal_strlit("-");
            assert(m as int == -(n as int));
        }
        push_digits(out, m);
        proof {
            assert(final(out)@ =~= old(out)@ + int_text(n as int));
        }
    } else {
        push_digits(out, n as u64);
    }
}

// ------------------------------------------------------------------
// The parameters column.
// ------------------------------------------------------------------

/// Print a parameters record as its canonical JSON object.
pub fn encode_parameters(p: &ModelParameters) -> (r: String)
    ensures
        r@ == params_json(p.deep_view()),
{
    let mut out = String::new();
    out.append("{\"temperature\":");
    out.append(p.temperature.as_str());
    out.append(",\"topP\":");
    out.append(p.top_p.as_str());
    out.append(",\"maxTokens\":");
    append_i64(&mut out, p.max_tokens);
    out.append(",\"frequencyPenalty\":");
    out.append(p.frequency_penalty.as_str());
    out.append(",\"presencePenalty\":");
    out.append(p.presence_penalty.as_str());
    out.append("}");
    proof {
        assert(out@ =~= params_json(p.deep_view()));
    }
    out
}

/// The documented fallback for a parameters column that does not decode.
fn fallback_parameters() -> (r: ModelParameters)
    ensures
        r.deep_view() == default_parameters(),
{
    let r = ModelParameters {
        temperature: String::from_str("0.7"),
        top_p: String::from_str("1.0"),
        max_tokens: 1024,
        frequency_penalty: String::from_str("0.0"),
        presence_penalty: String::from_str("0.0"),
    };
    proof {
        assert(r.deep_view() =~= default_parameters());
    }
    r
}

/// Read a stored parameters column.  Text that does not hold the canonical
/// object shape decodes to the documented default parameter set instead of
/// failing.
pub fn decode_parameters(s: &str) -> (r: ModelParameters)
    ensures
        r.deep_view() == match spec_decode_params(s@) {
            Some(p) => p,
            None => default_parameters(),
        },
{
    let n = s.unicode_len();
    if !match_lit(s, 0, "{\"temperature\":") {
        return fallback_parameters();
    }
    let a1 = "{\"temperature\":".unicode_len();
    let b1 = scan_num(s, a1, n);
    let t1 = s.substring_char(a1, b1);
    if !check_number(t1) || !match_lit(s, b1, ",\"topP\":") {
        return fallback_parameters();
    }
    let a2 = b1 + ",\"topP\":".unicode_len();
    let b2 = scan_num(s, a2, n);
    let t2 = s.substring_char(a2, b2);
    if !check_number(t2) || !match_lit(s, b2, ",\"maxTokens\":") {
        return fallback_parameters();
    }
    let a3 = b2 + ",\"maxTokens\":".unicode_len();
    let b3 = scan_num(s, a3, n);
    let v3 = match parse_i64(s, a3, b3) {
        Some(v) => v,
        None => {
            return fallback_parameters();
        },
    };
    if !match_lit(s, b3, ",\"frequencyPenalty\":") {
        return fallback_parameters();
    }
    let a4 = b3 + ",\"frequencyPenalty\":".unicode_len();
    let b4 = scan_num(s, a4, n);
    let t4 = s.substring_char(a4, b4);
    if !check_number(t4) || !match_lit(s, b4, ",\"presencePenalty\":") {
        return fallback_parameters();
    }
    let a5 = b4 + ",\"presencePenalty\":".unicode_len();
    let b5 = scan_num(s, a5, n);
    let t5 = s.substring_char(a5, b5);
    if !check_number(t5) || !match_lit(s, b5, "}") {
        return fallback_parameters();
    }
    if b5 + "}".unicode_len() != n {
        return fallback_parameters();
    }
    let r = ModelParameters {
        temperature: t1.to_owned(),
        top_p: t2.to_owned(),
        max_tokens: v3,
        frequency_penalty: t4.to_owned(),
        presence_penalty: t5.to_owned(),
    };
    proof {
        assert(spec_decode_params(s@) is Some);
        assert(r.deep_view() =~= spec_decode_params(s@).unwrap());
    }
    r
}


// ------------------------------------------------------------------
// JSON strings and string lists (tags, model ids).
// ------------------------------------------------------------------

/// The lowercase hexadecimal digit of a value below sixteen.
pub open spec fn hex_char(d: u32) -> char {
    if d < 10 {
        digit_char(d as int)
    } else if d == 10 {
        'a'
    } else if d == 11 {
        'b'
    } else if d == 12 {
        'c'
    } else if d == 13 {
        'd'
    } else if d == 14 {
        'e'
    } else {
        'f'
    }
}

/// The value of a hexadecimal digit, sixteen for any other character.
pub open spec fn hex_val(c: char) -> u32 {
    let u = c as u32;
    if 48 <= u <= 57 {
        (u - 48) as u32
    } else if 97 <= u <= 102 {
        (u - 87) as u32
    } else if 65 <= u <= 70 {
        (u - 55) as u32
    } else {
        16
    }
}

/// How one character prints inside a JSON string: quote, backslash and the
/// control characters are escaped as JSON prescribes, everything else
/// stands as itself.
pub open spec fn esc_char(c: char) -> Seq<char> {
    if c == '"' {
        seq!['\\', '"']
    } else if c == '\\' {
        seq!['\\', '\\']
    } else if c == '\u{8}' {
        seq!['\\', 'b']
    } else if c == '\t' {
        seq!['\\', 't']
    } else if c == '\n' {
        seq!['\\', 'n']
    } else if c == '\u{c}' {
        seq!['\\', 'f']
    } else if c == '\r' {
        seq!['\\', 'r']
    } else if (c as u32) < 32 {
        seq!['\\', 'u', '0', '0', hex_char((c as u32) / 16), hex_char((c as u32) % 16)]
    } else {
        seq![c]
    }
}

/// What a short escape code stands for, reading direction.
pub open spec fn unescape_short(c: char) -> Option<char> {
    if c == '"' {
        Some('"')
    } else if c == '\\' {
        Some('\\')
    } else if c == '/' {
        Some('/')
    } else if c == 'b' {
        Some('\u{8}')
    } else if c == 't' {
        Some('\t')
    } else if c == 'n' {
        Some('\n')
    } else if c == 'f' {
        Some('\u{c}')
    } else if c == 'r' {
        Some('\r')
    } else {
        None
    }
}

/// A text with its JSON escapes applied.
pub open spec fn esc(s: Seq<char>) -> Seq<char>
    decreases s.len(),
{
    if s.len() == 0 {
        Seq::empty()
    } else {
        esc(s.drop_last()) + esc_char(s.last())
    }
}

/// The JSON text of one string.
pub open spec fn json_string(s: Seq<char>) -> Seq<char> {
    seq!['"'] + esc(s) + seq!['"']
}

/// The comma-separated JSON texts of a list of strings.
pub open spec fn string_list_body(l: Seq<Seq<char>>) -> Seq<char>
    decreases l.len(),
{
    if l.len() == 0 {
        Seq::empty()
    } else if l.len() == 1 {
        json_string(l[0])
    } else {
        string_list_body(l.drop_last()) + seq![','] + json_string(l.last())
    }
}

/// The JSON array text of a list of strings.
pub open spec fn string_list_json(l: Seq<Seq<char>>) -> Seq<char> {
    seq!['['] + string_list_body(l) + seq![']']
}

/// Relies on `String::push`: appends exactly the given character.
#[verifier::external_body]
fn push_char(out: &mut String, c: char)
    ensures
        final(out)@ == old(out)@.push(c),
{
    out.push(c);
}

/// The lowercase hexadecimal digit of a value below sixteen, as text.
fn hex_str(d: u32) -> (r: &'static str)
    requires
        d < 16,
    ensures
        r@ == seq![hex_char(d)],
{
    proof {
        reveal_strlit("0");
        reveal_strlit("1");
        reveal_strlit("2");
        reveal_strlit("3");
        reveal_strlit("4");
        reveal_strlit("5");
        reveal_strlit("6");
        reveal_strlit("7");
        reveal_strlit("8");
        reveal_strlit("9");
        reveal_strlit("a");
        reveal_strlit("b");
        reveal_strlit("c");
        reveal_strlit("d");
        reveal_strlit("e");
        reveal_strlit("f");
    }
    if d == 0 {
        proof {
            assert("0"@ =~= seq![hex_char(0)]);
        }
        "0"
    } else if d == 1 {
        proof {
            assert("1"@ =~= seq![hex_char(1)]);
        }
        "1"
    } else if d == 2 {
        proof {
            assert("2"@ =~= seq![hex_char(2)]);
        }
        "2"
    } else if d == 3 {
        proof {
            assert("3"@ =~= seq![hex_char(3)]);
        }
        "3"
    } else if d == 4 {
        proof {
            assert("4"@ =~= seq![hex_char(4)]);
        }
        "4"
    } else if d == 5 {
        proof {
            assert("5"@ =~= seq![hex_char(5)]);
        }
        "5"
    } else if d == 6 {
        proof {
            assert("6"@ =~= seq![hex_char(6)]);
        }
        "6"
    } else if d == 7 {
        proof {
            assert("7"@ =~= seq![hex_char(7)]);
        }
        "7"
    } else if d == 8 {
        proof {
            assert("8"@ =~= seq![hex_char(8)]);
        }
        "8"
    } else if d == 9 {
        proof {
            assert("9"@ =~= seq![hex_char(9)]);
        }
        "9"
    } else if d == 10 {
        proof {
            assert("a"@ =~= seq![hex_char(10)]);
        }
        "a"
    } else if d == 11 {
        proof {
            assert("b"@ =~= seq![hex_char(11)]);
        }
        "b"
    } else if d == 12 {
        proof {
            assert("c"@ =~= seq![hex_char(12)]);
        }
        "c"
    } else if d == 13 {
        proof {
            assert("d"@ =~= seq![hex_char(13)]);
        }
        "d"
    } else if d == 14 {
        proof {
            assert("e"@ =~= seq![hex_char(14)]);
        }
        "e"
    } else {
        proof {
            assert("f"@ =~= seq![hex_char(15)]);
        }
        "f"
    }
}

/// The value of a hexadecimal digit, sixteen for any other character.
fn hex_val_of(c: char) -> (r: u32)
    ensures
        r == hex_val(c),
{
    let u = c as u32;
    if 48 <= u && u <= 57 {
        u - 48
    } else if 97 <= u && u <= 102 {
        u - 87
    } else if 65 <= u && u <= 70 {
        u - 55
    } else {
        16
    }
}

/// What a short escape code stands for, reading direction.
fn unescape_short_of(c: char) -> (r: Option<char>)
    ensures
        r == unescape_short(c),
{
    if c == '"' {
        Some('"')
    } else if c == '\\' {
        Some('\\')
    } else if c == '/' {
        Some('/')
    } else if c == 'b' {
        Some('\u{8}')
    } else if c == 't' {
        Some('\t')
    } else if c == 'n' {
        Some('\n')
    } else if c == 'f' {
        Some('\u{c}')
    } else if c == 'r' {
        Some('\r')
    } else {
        None
    }
}

/// Append the JSON text of one string.
fn append_json_string(out: &mut String, s: &str)
    ensures
        final(out)@ == old(out)@ + json_string(s@),
{
    out.append("\"");
    proof {
        reveal_strlit("\"");
        assert(out@ =~= old(out)@ + seq!['"'] + esc(s@.take(0)));
    }
    let n = s.unicode_len();
    let mut i: usize = 0;
    while i < n
        invariant
            i <= n,
            n == s@.len(),
            out@ == old(out)@ + seq!['"'] + esc(s@.take(i as int)),
        decreases n - i,
    {
        let c = s.get_char(i);
        let ghost before = out@;
        if c == '"' {
            out.append("\\\"");
            proof {
                reveal_strlit("\\\"");
                assert(out@ =~= before + esc_char(s@[i as int]));
            }
        } else if c == '\\' {
            out.append("\\\\");
            proof {
                reveal_strlit("\\\\");
                assert(out@ =~= before + esc_char(s@[i as int]));
            }
        } else if c == '\u{8}' {
            out.append("\\b");
            proof {
                reveal_strlit("\\b");
                assert(out@ =~= before + esc_char(s@[i as int]));
            }
        } else if c == '\t' {
            out.append("\\t");
            proof {
                reveal_strlit("\\t");
                assert(out@ =~= before + esc_char(s@[i as int]));
            }
        } else if c == '\n' {
            out.append("\\n");
            proof {
                reveal_strlit("\\n");
                assert(out@ =~= before + esc_char(s@[i as int]));
            }
        } else if c == '\u{c}' {
            out.append("\\f");
            proof {
                reveal_strlit("\\f");
                assert(out@ =~= before + esc_char(s@[i as int]));
            }
        } else if c == '\r' {
            out.append("\\r");
            proof {
                reveal_strlit("\\r");
                assert(out@ =~= before + esc_char(s@[i as int]));
            }
        } else if (c as u32) < 32 {
            let u = c as u32;
            out.append("\\u00");
            out.append(hex_str(u / 16));
            out.append(hex_str(u % 16));
            proof {
                reveal_strlit("\\u00");
                assert(out@ =~= before + esc_char(s@[i as int]));
            }
        } else {
            push_char(out, c);
            proof {
                assert(out@ =~= before + esc_char(s@[i as int]));
            }
        }
        proof {
            assert(s@.take(i + 1).drop_last() =~= s@.take(i as int));
            assert(s@.take(i + 1).last() == s@[i as int]);
            assert(out@ =~= old(out)@ + seq!['"'] + esc(s@.take(i + 1)));
        }
        i += 1;
    }
    out.append("\"");
    proof {
        reveal_strlit("\"");
        assert(s@.take(n as int) =~= s@);
        assert(final(out)@ =~= old(out)@ + json_string(s@));
    }
}

/// Print a list of strings as canonical JSON array text.
pub fn encode_string_list(v: &Vec<String>) -> (r: String)
    ensures
        r@ == string_list_json(v.deep_view()),
{
    let mut out = String::new();
    out.append("[");
    proof {
        reveal_strlit("[");
        assert(out@ =~= seq!['['] + string_list_body(v.deep_view().take(0)));
    }
    let mut i: usize = 0;
    while i < v.len()
        invariant
            i <= v.len(),
            out@ == seq!['['] + string_list_body(v.deep_view().take(i as int)),
        decreases v.len() - i,
    {
        let ghost before = out@;
        if i > 0 {
            out.append(",");
            proof {
                reveal_strlit(",");
            }
        }
        append_json_string(&mut out, v[i].as_str());
        proof {
            let dv = v.deep_view();
            assert(dv.take(i + 1).drop_last() =~= dv.take(i as int));
            assert(dv.take(i + 1).last() == dv[i as int]);
            assert(dv[i as int] == v@[i as int].deep_view());
            if i == 0 {
                assert(string_list_body(dv.take(1)) == json_string(dv[0]));
                assert(out@ =~= seq!['['] + string_list_body(dv.take(i + 1)));
            } else {
                assert(out@ =~= seq!['['] + string_list_body(dv.take(i + 1)));
            }
        }
        i += 1;
    }
    out.append("]");
    proof {
        reveal_strlit("]");
        assert(v.deep_view().take(v.len() as int) =~= v.deep_view());
        assert(out@ =~= string_list_json(v.deep_view()));
    }
    out
}

/// What the rest of a JSON string, read from just after the opening quote,
/// decodes to: the text and the position after the closing quote.  The
/// accepted escapes are the standard short ones and `\u00XX`; code points
/// above U+00FF written as `\uXXXX` are refused (the encoder never emits
/// them — it escapes only control characters).
pub open spec fn spec_parse_string_tail(s: Seq<char>, i: int) -> Option<(Seq<char>, int)>
    decreases s.len() - i,
{
    if i < 0 || i >= s.len() {
        None
    } else if s[i] == '"' {
        Some((Seq::empty(), i + 1))
    } else if s[i] == '\\' {
        if i + 1 < s.len() {
            if s[i + 1] == 'u' {
                if i + 6 <= s.len() && hex_val(s[i + 2]) == 0 && hex_val(s[i + 3]) == 0 && hex_val(
                    s[i + 4],
                ) < 16 && hex_val(s[i + 5]) < 16 {
                    match spec_parse_string_tail(s, i + 6) {
                        Some(p) => Some(
                            (
                                seq![((hex_val(s[i + 4]) * 16 + hex_val(s[i + 5])) as u8) as char]
                                    + p.0,
                                p.1,
                            ),
                        ),
                        None => None,
                    }
                } else {
                    None
                }
            } else {
                match unescape_short(s[i + 1]) {
                    Some(c) => match spec_parse_string_tail(s, i + 2) {
                        Some(p) => Some((seq![c] + p.0, p.1)),
                        None => None,
                    },
                    None => None,
                }
            }
        } else {
            None
        }
    } else {
        match spec_parse_string_tail(s, i + 1) {
            Some(p) => Some((seq![s[i]] + p.0, p.1)),
            None => None,
        }
    }
}

/// What a JSON string starting at `i` decodes to.
pub open spec fn spec_parse_string(s: Seq<char>, i: int) -> Option<(Seq<char>, int)> {
    if 0 <= i < s.len() && s[i] == '"' {
        spec_parse_string_tail(s, i + 1)
    } else {
        None
    }
}

/// A parsed string tail ends after where it began, within the text.
proof fn lemma_parse_string_tail_bounds(s: Seq<char>, i: int)
    ensures
        spec_parse_string_tail(s, i) matches Some(p) ==> i < p.1 <= s.len(),
    decreases s.len() - i,
{
    if 0 <= i < s.len() {
        lemma_parse_string_tail_bounds(s, i + 1);
        if i + 2 <= s.len() {
            lemma_parse_string_tail_bounds(s, i + 2);
        }
        if i + 6 <= s.len() {
            lemma_parse_string_tail_bounds(s, i + 6);
        }
    }
}

/// A parsed string ends after where it began, within the text.
proof fn lemma_parse_string_bounds(s: Seq<char>, i: int)
    ensures
        spec_parse_string(s, i) matches Some(p) ==> i < p.1 <= s.len(),
{
    lemma_parse_string_tail_bounds(s, i + 1);
}

/// What a comma-separated run of JSON strings, closed by `]`, decodes to:
/// the texts and the position after the bracket.
pub open spec fn spec_parse_items(s: Seq<char>, i: int) -> Option<(Seq<Seq<char>>, int)>
    decreases s.len() - i,
    via spec_parse_items_dec
{
    match spec_parse_string(s, i) {
        None => None,
        Some(p) => {
            if p.1 < s.len() && s[p.1] == ',' {
                match spec_parse_items(s, p.1 + 1) {
                    None => None,
                    Some(q) => Some((seq![p.0] + q.0, q.1)),
                }
            } else if p.1 < s.len() && s[p.1] == ']' {
                Some((seq![p.0], p.1 + 1))
            } else {
                None
            }
        },
    }
}

#[via_fn]
proof fn spec_parse_items_dec(s: Seq<char>, i: int) {
    lemma_parse_string_bounds(s, i);
}

/// What a stored string-list column decodes to: the canonical array shape,
/// or — for any text that does not parse — the empty list.
pub open spec fn spec_decode_string_list(s: Seq<char>) -> Seq<Seq<char>> {
    if s.len() < 2 || s[0] != '[' {
        Seq::empty()
    } else if s.len() == 2 {
        Seq::empty()
    } else {
        match spec_parse_items(s, 1) {
            Some(q) => if q.1 == s.len() {
                q.0
            } else {
                Seq::empty()
            },
            None => Seq::empty(),
        }
    }
}

/// Parse one JSON string starting at the opening quote.
fn parse_json_string(s: &str, i0: usize) -> (r: Option<(String, usize)>)
    requires
        i0 <= s@.len(),
    ensures
        match r {
            Some(p) => spec_parse_string(s@, i0 as int) == Some((p.0@, p.1 as int)) && i0 < p.1
                <= s@.len(),
            None => spec_parse_string(s@, i0 as int) is None,
        },
{
    let n = s.unicode_len();
    if i0 >= n || !(s.get_char(i0) == '"') {
        return None;
    }
    let mut out = String::new();
    let mut i: usize = i0 + 1;
    proof {
        match spec_parse_string_tail(s@, i as int) {
            Some(p) => {
                assert(out@ + p.0 =~= p.0);
            },
            None => {},
        }
    }
    loop
        invariant
            i0 + 1 <= i <= n,
            n == s@.len(),
            s@[i0 as int] == '"',
            match spec_parse_string_tail(s@, i as int) {
                Some(p) => spec_parse_string(s@, i0 as int) == Some((out@ + p.0, p.1)),
                None => spec_parse_string(s@, i0 as int) is None,
            },
        decreases n - i,
    {
        if i >= n {
            return None;
        }
        let c = s.get_char(i);
        if c == '"' {
            proof {
                assert(spec_parse_string_tail(s@, i as int) == Some((
                    Seq::<char>::empty(),
                    i + 1 as int,
                )));
                assert(out@ + Seq::<char>::empty() =~= out@);
            }
            return Some((out, i + 1));
        } else if c == '\\' {
            if i + 1 >= n {
                return None;
            }
            let e = s.get_char(i + 1);
            let ghost before = out@;
            if e == 'u' {
                if n - i < 6 {
                    return None;
                }
                let h2 = hex_val_of(s.get_char(i + 2));
                let h3 = hex_val_of(s.get_char(i + 3));
                let h4 = hex_val_of(s.get_char(i + 4));
                let h5 = hex_val_of(s.get_char(i + 5));
                if !(h2 == 0 && h3 == 0 && h4 < 16 && h5 < 16) {
                    return None;
                }
                let ch = ((h4 * 16 + h5) as u8) as char;
                push_char(&mut out, ch);
                proof {
                    match spec_parse_string_tail(s@, (i + 6) as int) {
                        Some(p) => {
                            assert(before + (seq![ch] + p.0) =~= out@ + p.0);
                        },
                        None => {},
                    }
                }
                i = i + 6;
            } else {
                let dec = match unescape_short_of(e) {
                    Some(d) => d,
                    None => {
                        return None;
                    },
                };
                push_char(&mut out, dec);
                proof {
                    match spec_parse_string_tail(s@, (i + 2) as int) {
                        Some(p) => {
                            assert(before + (seq![dec] + p.0) =~= out@ + p.0);
                        },
                        None => {},
                    }
                }
                i = i + 2;
            }
        } else {
            let ghost before = out@;
            push_char(&mut out, c);
            proof {
                match spec_parse_string_tail(s@, (i + 1) as int) {
                    Some(p) => {
                        assert(before + (seq![c] + p.0) =~= out@ + p.0);
                    },
                    None => {},
                }
            }
            i = i + 1;
        }
    }
}

/// Read a stored string-list column.  The result is exactly what the
/// canonical array shape in the column decodes to; any text that does not
/// parse degrades to the empty list.
pub fn decode_string_list(s: &str) -> (r: Vec<String>)
    ensures
        r.deep_view() == spec_decode_string_list(s@),
{
    let n = s.unicode_len();
    if n < 2 || !(s.get_char(0) == '[') {
        let empty: Vec<String> = Vec::new();
        proof {
            assert(empty.deep_view() =~= spec_decode_string_list(s@));
        }
        return empty;
    }
    if n == 2 {
        let empty: Vec<String> = Vec::new();
        proof {
            assert(empty.deep_view() =~= spec_decode_string_list(s@));
        }
        return empty;
    }
    let mut out: Vec<String> = Vec::new();
    let mut i: usize = 1;
    proof {
        match spec_parse_items(s@, i as int) {
            Some(q) => {
                assert(out.deep_view() + q.0 =~= q.0);
            },
            None => {},
        }
    }
    loop
        invariant
            1 <= i <= n,
            n == s@.len(),
            2 < n,
            s@[0] == '[',
            match spec_parse_items(s@, i as int) {
                Some(q) => spec_parse_items(s@, 1) == Some((out.deep_view() + q.0, q.1)),
                None => spec_parse_items(s@, 1) is None,
            },
        decreases n - i,
    {
        let item = match parse_json_string(s, i) {
            None => {
                let empty: Vec<String> = Vec::new();
                proof {
                    assert(empty.deep_view() =~= spec_decode_string_list(s@));
                }
                return empty;
            },
            Some(p) => p,
        };
        let (t, j) = item;
        let ghost prev = out;
        let ghost tg = t;
        out.push(t);
        proof {
            crate::seqs::lemma_deep_view_push(prev, out, tg);
        }
        if j < n && s.get_char(j) == ',' {
            proof {
                match spec_parse_items(s@, (j + 1) as int) {
                    Some(q) => {
                        assert(seq![tg@] + q.0 =~= (spec_parse_items(s@, i as int)->Some_0).0);
                        assert(prev.deep_view() + (seq![tg@] + q.0) =~= out.deep_view() + q.0);
                    },
                    None => {},
                }
            }
            i = j + 1;
        } else if j < n && s.get_char(j) == ']' {
            proof {
                assert(spec_parse_items(s@, i as int) == Some((seq![tg@], j + 1 as int)));
                assert(prev.deep_view() + seq![tg@] =~= out.deep_view());
            }
            if j + 1 == n {
                proof {
                    assert(spec_decode_string_list(s@) == out.deep_view());
                }
                return out;
            } else {
                let empty: Vec<String> = Vec::new();
                proof {
                    assert(empty.deep_view() =~= spec_decode_string_list(s@));
                }
                return empty;
            }
        } else {
            let empty: Vec<String> = Vec::new();
            proof {
                assert(spec_parse_items(s@, i as int) is None || !(spec_parse_items(
                    s@,
                    i as int,
                ) is Some));
                assert(empty.deep_view() =~= spec_decode_string_list(s@));
            }
            return empty;
        }
    }
}

// ------------------------------------------------------------------
// The score column.
// ------------------------------------------------------------------

/// An optional numeric field prints as its literal or as `null`.
pub open spec fn opt_num_json(o: Option<Seq<char>>) -> Seq<char> {
    match o {
        Some(t) => t,
        None => "null"@,
    }
}

/// An optional string field prints as a JSON string or as `null`.
pub open spec fn opt_str_json(o: Option<Seq<char>>) -> Seq<char> {
    match o {
        Some(t) => json_string(t),
        None => "null"@,
    }
}

/// The canonical JSON text of a score record.
pub open spec fn score_json(v: ScoringResultV) -> Seq<char> {
    "{\"score\":"@ + v.score + ",\"confidence\":"@ + opt_num_json(v.confidence) + ",\"notes\":"@
        + opt_str_json(v.notes) + ",\"rawScore\":"@ + opt_num_json(v.raw_score)
        + ",\"maxScore\":"@ + opt_num_json(v.max_score) + "}"@
}

/// What an optional numeric field decodes to: `null`, or a decimal
/// literal taken whole.
pub open spec fn spec_parse_opt_num(s: Seq<char>, i: int) -> Option<(Option<Seq<char>>, int)> {
    if begins_with(s, i, "null"@) {
        Some((None, i + "null"@.len()))
    } else {
        let b = num_end(s, i);
        if b == i || !is_number(s.subrange(i, b)) {
            None
        } else {
            Some((Some(s.subrange(i, b)), b))
        }
    }
}

/// What an optional string field decodes to: `null`, or a JSON string.
pub open spec fn spec_parse_opt_str(s: Seq<char>, i: int) -> Option<(Option<Seq<char>>, int)> {
    if begins_with(s, i, "null"@) {
        Some((None, i + "null"@.len()))
    } else {
        match spec_parse_string(s, i) {
            Some(p) => Some((Some(p.0), p.1)),
            None => None,
        }
    }
}

/// What a stored score column decodes to: the canonical object shape, or
/// nothing.
pub open spec fn spec_decode_score(s: Seq<char>) -> Option<ScoringResultV> {
    let l1 = "{\"score\":"@;
    let l2 = ",\"confidence\":"@;
    let l3 = ",\"notes\":"@;
    let l4 = ",\"rawScore\":"@;
    let l5 = ",\"maxScore\":"@;
    let l6 = "}"@;
    if !begins_with(s, 0, l1) {
        None
    } else {
        let a1 = l1.len() as int;
        let b1 = num_end(s, a1);
        let t1 = s.subrange(a1, b1);
        if b1 == a1 || !is_number(t1) || !begins_with(s, b1, l2) {
            None
        } else {
            match spec_parse_opt_num(s, b1 + l2.len()) {
                None => None,
                Some(pc) => {
                    if !begins_with(s, pc.1, l3) {
                        None
                    } else {
                        match spec_parse_opt_str(s, pc.1 + l3.len()) {
                            None => None,
                            Some(pn) => {
                                if !begins_with(s, pn.1, l4) {
                                    None
                                } else {
                                    match spec_parse_opt_num(s, pn.1 + l4.len()) {
                                        None => None,
                                        Some(pr) => {
                                            if !begins_with(s, pr.1, l5) {
                                                None
                                            } else {
                                                match spec_parse_opt_num(s, pr.1 + l5.len()) {
                                                    None => None,
                                                    Some(pm) => {
                                                        if !begins_with(s, pm.1, l6) || pm.1
                                                            + l6.len() != s.len() {
                                                            None
                                                        } else {
                                                            Some(
                                                                ScoringResultV {
                                                                    score: t1,
                                                                    confidence: pc.0,
                                                                    notes: pn.0,
                                                                    raw_score: pr.0,
                                                                    max_score: pm.0,
                                                                },
                                                            )
                                                        }
                                                    },
                                                }
                                            }
                                        },
                                    }
                                }
                            },
                        }
                    }
                },
            }
        }
    }
}

/// Append an optional numeric field.
fn append_opt_num(out: &mut String, o: &Option<String>)
    ensures
        final(out)@ == old(out)@ + opt_num_json(o.deep_view()),
{
    match o {
        Some(t) => out.append(t.as_str()),
        None => out.append("null"),
    }
}

/// Append an optional string field.
fn append_opt_str(out: &mut String, o: &Option<String>)
    ensures
        final(out)@ == old(out)@ + opt_str_json(o.deep_view()),
{
    match o {
        Some(t) => append_json_string(out, t.as_str()),
        None => out.append("null"),
    }
}

/// Print a score record as its canonical JSON object.
pub fn encode_score(v: &ScoringResult) -> (r: String)
    ensures
        r@ == score_json(v.deep_view()),
{
    let mut out = String::new();
    out.append("{\"score\":");
    out.append(v.score.as_str());
    out.append(",\"confidence\":");
    append_opt_num(&mut out, &v.confidence);
    out.append(",\"notes\":");
    append_opt_str(&mut out, &v.notes);
    out.append(",\"rawScore\":");
    append_opt_num(&mut out, &v.raw_score);
    out.append(",\"maxScore\":");
    append_opt_num(&mut out, &v.max_score);
    out.append("}");
    proof {
        assert(out@ =~= score_json(v.deep_view()));
    }
    out
}

/// Parse an optional numeric field: `null`, or a decimal literal.
fn parse_opt_num(s: &str, i: usize) -> (r: Option<(Option<String>, usize)>)
    requires
        i <= s@.len(),
    ensures
        match r {
            Some(p) => spec_parse_opt_num(s@, i as int) == Some((p.0.deep_view(), p.1 as int))
                && i <= p.1 <= s@.len(),
            None => spec_parse_opt_num(s@, i as int) is None,
        },
{
    let n = s.unicode_len();
    if match_lit(s, i, "null") {
        let j = i + "null".unicode_len();
        return Some((None, j));
    }
    let b = scan_num(s, i, n);
    if b == i {
        return None;
    }
    let t = s.substring_char(i, b);
    if !check_number(t) {
        return None;
    }
    Some((Some(t.to_owned()), b))
}

/// Parse an optional string field: `null`, or a JSON string.
fn parse_opt_str(s: &str, i: usize) -> (r: Option<(Option<String>, usize)>)
    requires
        i <= s@.len(),
    ensures
        match r {
            Some(p) => spec_parse_opt_str(s@, i as int) == Some((p.0.deep_view(), p.1 as int))
                && i <= p.1 <= s@.len(),
            None => spec_parse_opt_str(s@, i as int) is None,
        },
{
    let n = s.unicode_len();
    if match_lit(s, i, "null") {
        let j = i + "null".unicode_len();
        proof {
            assert(j <= n);
        }
        return Some((None, j));
    }
    match parse_json_string(s, i) {
        None => None,
        Some(p) => Some((Some(p.0), p.1)),
    }
}

/// Read a stored score column.  The result is exactly what the canonical
/// object shape in the column decodes to; any text that does not parse
/// degrades to no score.
#[verifier::rlimit(100)]
pub fn decode_score(s: &str) -> (r: Option<ScoringResult>)
    ensures
        r.deep_view() == spec_decode_score(s@),
{
    let n = s.unicode_len();
    if !match_lit(s, 0, "{\"score\":") {
        return None;
    }
    let a1 = "{\"score\":".unicode_len();
    let b1 = scan_num(s, a1, n);
    if b1 == a1 {
        return None;
    }
    let t1 = s.substring_char(a1, b1);
    if !check_number(t1) || !match_lit(s, b1, ",\"confidence\":") {
        return None;
    }
    let a2 = b1 + ",\"confidence\":".unicode_len();
    let (conf, b2) = match parse_opt_num(s, a2) {
        None => {
            return None;
        },
        Some(p) => p,
    };
    if !match_lit(s, b2, ",\"notes\":") {
        return None;
    }
    let a3 = b2 + ",\"notes\":".unicode_len();
    let (notes, b3) = match parse_opt_str(s, a3) {
        None => {
            return None;
        },
        Some(p) => p,
    };
    if !match_lit(s, b3, ",\"rawScore\":") {
        return None;
    }
    let a4 = b3 + ",\"rawScore\":".unicode_len();
    let (raw, b4) = match parse_opt_num(s, a4) {
        None => {
            return None;
        },
        Some(p) => p,
    };
    if !match_lit(s, b4, ",\"maxScore\":") {
        return None;
    }
    let a5 = b4 + ",\"maxScore\":".unicode_len();
    let (mx, b5) = match parse_opt_num(s, a5) {
        None => {
            return None;
        },
        Some(p) => p,
    };
    if !match_lit(s, b5, "}") {
        return None;
    }
    if b5 + "}".unicode_len() != n {
        return None;
    }
    let v = ScoringResult {
        score: t1.to_owned(),
        confidence: conf,
        notes,
        raw_score: raw,
        max_score: mx,
    };
    proof {
        assert(spec_decode_score(s@) is Some);
        assert(v.deep_view() =~= spec_decode_score(s@)->Some_0);
    }
    Some(v)
}

} // verus!
