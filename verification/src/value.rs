//! The value model: spec-level typed values and the verified text
//! parsers behind them.
//!
//! A float value is kept as its raw text, validated against the written
//! grammar below; reading it as machine floating point is left to the
//! caller.

use vstd::prelude::*;
use vstd::string::*;
use crate::arg::ArgType;
use crate::text::chars_of;
use crate::text::str_eq;

verus! {

/// A typed value at the specification level.  Text is a sequence of
/// characters, integers are unbounded.
pub enum TypedValue {
    Bool { value: bool },
    Str { value: Seq<char> },
    Int { value: int },
    Float { text: Seq<char> },
}

impl TypedValue {
    /// The kind a typed value belongs to.
    pub open spec fn kind(self) -> ArgType {
        match self {
            TypedValue::Bool { .. } => ArgType::Bool,
            TypedValue::Str { .. } => ArgType::Str,
            TypedValue::Int { .. } => ArgType::Int,
            TypedValue::Float { .. } => ArgType::Float,
        }
    }
}

/// Whether a character is a decimal digit.
pub open spec fn is_digit(c: char) -> bool {
    48 <= c as u32 && c as u32 <= 57
}

/// The numeric value of a decimal digit.
pub open spec fn digit_val(c: char) -> int {
    c as u32 - 48
}

/// Whether every character of a text is a decimal digit.
pub open spec fn all_digits(s: Seq<char>) -> bool {
    forall|i: int| 0 <= i < s.len() ==> is_digit(s[i])
}

/// The value of a digit string read in base ten.
pub open spec fn dec_val(s: Seq<char>) -> int
    decreases s.len(),
{
    if s.len() == 0 {
        0
    } else {
        dec_val(s.drop_last()) * 10 + digit_val(s.last())
    }
}

/// What parsing a boolean from text yields: exactly `true` and `false`
/// are accepted.
pub open spec fn spec_parse_bool(s: Seq<char>) -> Option<bool> {
    if s == "true"@ {
        Some(true)
    } else if s == "false"@ {
        Some(false)
    } else {
        None
    }
}

/// What parsing a 32-bit signed integer from text yields: an optional
/// sign followed by one or more digits, with the value in range.
pub open spec fn spec_parse_int(s: Seq<char>) -> Option<int> {
    let negative = s.len() > 0 && s[0] == '-';
    let digits = if s.len() > 0 && (s[0] == '-' || s[0] == '+') {
        s.skip(1)
    } else {
        s
    };
    if digits.len() > 0 && all_digits(digits) {
        let magnitude = dec_val(digits);
        let v = if negative {
            -magnitude
        } else {
            magnitude
        };
        if -0x8000_0000 <= v && v <= 0x7fff_ffff {
            Some(v)
        } else {
            None
        }
    } else {
        None
    }
}

/// Whether a character equals a lower-case letter, ignoring ASCII case.
pub open spec fn char_matches_lower(c: char, k: char) -> bool {
    c == k || (97 <= k as u32 && k as u32 <= 122 && c as u32 == k as u32 - 32)
}

/// Whether a text matches a lower-case keyword, ignoring ASCII case.
pub open spec fn matches_ignore_case(s: Seq<char>, kw: Seq<char>) -> bool {
    s.len() == kw.len() && forall|i: int| 0 <= i < s.len() ==> char_matches_lower(s[i], kw[i])
}

/// The index of the first occurrence of either given character.
pub open spec fn first_index2(s: Seq<char>, c1: char, c2: char) -> Option<int>
    decreases s.len(),
{
    if s.len() == 0 {
        None
    } else if s[0] == c1 || s[0] == c2 {
        Some(0)
    } else {
        match first_index2(s.skip(1), c1, c2) {
            Some(i) => Some(i + 1),
            None => None,
        }
    }
}

/// The keywords a float text may spell, ignoring ASCII case.
pub open spec fn is_float_keyword(s: Seq<char>) -> bool {
    matches_ignore_case(s, "inf"@) || matches_ignore_case(s, "infinity"@) || matches_ignore_case(
        s,
        "nan"@,
    )
}

/// A mantissa: digits, or digits around a single decimal point with at
/// least one digit on some side.
pub open spec fn is_mantissa(s: Seq<char>) -> bool {
    match first_index2(s, '.', '.') {
        None => s.len() > 0 && all_digits(s),
        Some(i) => {
            let before = s.take(i);
            let after = s.skip(i + 1);
            all_digits(before) && all_digits(after) && (before.len() > 0 || after.len() > 0)
        },
    }
}

/// An exponent suffix: an optional sign followed by one or more digits.
pub open spec fn is_exp_suffix(s: Seq<char>) -> bool {
    let digits = if s.len() > 0 && (s[0] == '+' || s[0] == '-') {
        s.skip(1)
    } else {
        s
    };
    digits.len() > 0 && all_digits(digits)
}

/// A number: a mantissa, optionally followed by `e` or `E` and an
/// exponent suffix.
pub open spec fn is_float_number(s: Seq<char>) -> bool {
    match first_index2(s, 'e', 'E') {
        None => is_mantissa(s),
        Some(i) => is_mantissa(s.take(i)) && is_exp_suffix(s.skip(i + 1)),
    }
}

/// The float grammar: an optional sign, then a keyword or a number.
pub open spec fn spec_is_float_text(s: Seq<char>) -> bool {
    let body = if s.len() > 0 && (s[0] == '+' || s[0] == '-') {
        s.skip(1)
    } else {
        s
    };
    is_float_keyword(body) || is_float_number(body)
}

/// What parsing a value of a given kind from text yields.
pub open spec fn spec_parse_value(kind: ArgType, raw: Seq<char>) -> Option<TypedValue> {
    match kind {
        ArgType::Bool => match spec_parse_bool(raw) {
            Some(b) => Some(TypedValue::Bool { value: b }),
            None => None,
        },
        ArgType::Str => Some(TypedValue::Str { value: raw }),
        ArgType::Int => match spec_parse_int(raw) {
            Some(v) => Some(TypedValue::Int { value: v }),
            None => None,
        },
        ArgType::Float => if spec_is_float_text(raw) {
            Some(TypedValue::Float { text: raw })
        } else {
            None
        },
    }
}

/// A digit string never reads as a negative value.
pub proof fn lemma_dec_val_nonneg(s: Seq<char>)
    requires
        all_digits(s),
    ensures
        dec_val(s) >= 0,
    decreases s.len(),
{
    if s.len() > 0 {
        assert(all_digits(s.drop_last()));
        lemma_dec_val_nonneg(s.drop_last());
    }
}

/// Extending a digit string never lowers its value.
pub proof fn lemma_dec_val_prefix_le(s: Seq<char>, k: int)
    requires
        all_digits(s),
        0 <= k <= s.len(),
    ensures
        dec_val(s.take(k)) <= dec_val(s),
    decreases s.len() - k,
{
    if k == s.len() {
        assert(s.take(k) =~= s);
    } else {
        let t = s.take(k + 1);
        assert(t.drop_last() =~= s.take(k));
        assert(all_digits(s.take(k)));
        lemma_dec_val_nonneg(s.take(k));
        assert(dec_val(t) == dec_val(s.take(k)) * 10 + digit_val(s[k]));
        lemma_dec_val_prefix_le(s, k + 1);
    }
}

/// Powers of ten.
pub open spec fn pow10(k: nat) -> int
    decreases k,
{
    if k == 0 {
        1
    } else {
        10 * pow10((k - 1) as nat)
    }
}

/// The value of a digit string read least-significant digit first.
pub open spec fn dec_val_lsf(s: Seq<char>) -> int
    decreases s.len(),
{
    if s.len() == 0 {
        0
    } else {
        digit_val(s[0]) + 10 * dec_val_lsf(s.skip(1))
    }
}

/// Reversing a least-significant-first digit string reads it in base
/// ten.
proof fn lemma_dec_val_reverse(s: Seq<char>)
    ensures
        dec_val(s.reverse()) == dec_val_lsf(s),
    decreases s.len(),
{
    if s.len() > 0 {
        let rev = s.reverse();
        assert(rev.last() == s[0]);
        assert(rev.drop_last() =~= s.skip(1).reverse());
        lemma_dec_val_reverse(s.skip(1));
    }
}

/// Appending a digit at the most significant end adds its weighted
/// value.
proof fn lemma_dec_val_lsf_push(s: Seq<char>, c: char)
    ensures
        dec_val_lsf(s.push(c)) == dec_val_lsf(s) + digit_val(c) * pow10(s.len()),
    decreases s.len(),
{
    let t = s.push(c);
    assert(t.len() == s.len() + 1);
    if s.len() == 0 {
        assert(t.skip(1) =~= Seq::<char>::empty());
        assert(t[0] == c);
        assert(dec_val_lsf(t) == digit_val(c) + 10 * dec_val_lsf(t.skip(1)));
        assert(dec_val_lsf(t.skip(1)) == 0);
        assert(dec_val_lsf(s) == 0);
        assert(pow10(s.len()) == 1);
    } else {
        assert(t[0] == s[0]);
        assert(t.skip(1) =~= s.skip(1).push(c));
        assert(dec_val_lsf(t) == digit_val(s[0]) + 10 * dec_val_lsf(s.skip(1).push(c)));
        lemma_dec_val_lsf_push(s.skip(1), c);
        let d = digit_val(c);
        let v1 = dec_val_lsf(s.skip(1));
        let p = pow10(s.skip(1).len());
        assert(dec_val_lsf(s.skip(1).push(c)) == v1 + d * p);
        assert(10 * (v1 + d * p) == 10 * v1 + d * (10 * p)) by (nonlinear_arith);
        assert(dec_val_lsf(s) == digit_val(s[0]) + 10 * v1);
        assert(pow10(s.len()) == 10 * pow10((s.len() - 1) as nat));
        assert(s.skip(1).len() == s.len() - 1);
        assert(pow10(s.len()) == 10 * p);
    }
}

/// The character of a decimal digit.
pub open spec fn digit_char(d: int) -> char {
    if d == 0 {
        '0'
    } else if d == 1 {
        '1'
    } else if d == 2 {
        '2'
    } else if d == 3 {
        '3'
    } else if d == 4 {
        '4'
    } else if d == 5 {
        '5'
    } else if d == 6 {
        '6'
    } else if d == 7 {
        '7'
    } else if d == 8 {
        '8'
    } else {
        '9'
    }
}

/// The canonical decimal text of a non-negative number: no sign, no
/// leading zero.
pub open spec fn dec_text(n: int) -> Seq<char>
    recommends
        n >= 0,
    decreases n,
{
    if n < 10 {
        seq![digit_char(n)]
    } else {
        dec_text(n / 10).push(digit_char(n % 10))
    }
}

/// The canonical decimal text of a number: a minus sign where it is
/// negative, then the magnitude.
pub open spec fn spec_int_text(v: int) -> Seq<char> {
    if v < 0 {
        seq!['-'] + dec_text(-v)
    } else {
        dec_text(v)
    }
}

/// Render an unsigned count as decimal digits.
#[verifier::loop_isolation(false)]
pub fn u64_to_text(m: u64) -> (r: String)
    ensures
        all_digits(r@),
        r@.len() >= 1,
        dec_val(r@) == m as int,
        r@ == dec_text(m as int),
{
    proof {
        reveal_strlit("0");
        reveal_strlit("1");
        reveal_strlit("2");
        reveal_strlit("3");
        reveal_strlit("4");
        reveal_strlit("5");
        reveal_strlit("6");
        reveal_strlit("7");
        reveal_strlit("8");
        reveal_strlit("9");
    }
    if m == 0 {
        let r = String::from_str("0");
        proof {
            assert(r@.len() == 1);
            assert(r@.drop_last() =~= Seq::<char>::empty());
            assert(r@.last() == '0');
            assert(dec_val(r@) == dec_val(Seq::<char>::empty()) * 10 + digit_val('0'));
            assert(r@ =~= dec_text(0));
        }
        return r;
    }
    let mut stack: Vec<&str> = Vec::new();
    let ghost mut digits_lsf: Seq<char> = Seq::empty();
    let mut cur: u64 = m;
    proof {
        assert(dec_text(m as int) =~= dec_text(m as int) + digits_lsf.reverse());
    }
    while cur > 0
        invariant
            m as int == cur * pow10(digits_lsf.len()) + dec_val_lsf(digits_lsf),
            all_digits(digits_lsf),
            stack@.len() == digits_lsf.len(),
            forall|k: int| 0 <= k < stack@.len() ==> (#[trigger] stack@[k])@ =~= seq![
                digits_lsf[k],
            ],
            digits_lsf.len() == 0 ==> cur == m,
            if cur > 0 {
                dec_text(m as int) == dec_text(cur as int) + digits_lsf.reverse()
            } else {
                dec_text(m as int) == digits_lsf.reverse()
            },
        decreases cur,
    {
        let ghost old_digits = digits_lsf;
        let ghost old_cur = cur as int;
        let d: u64 = cur % 10;
        let ds: &str = if d == 0 {
            "0"
        } else if d == 1 {
            "1"
        } else if d == 2 {
            "2"
        } else if d == 3 {
            "3"
        } else if d == 4 {
            "4"
        } else if d == 5 {
            "5"
        } else if d == 6 {
            "6"
        } else if d == 7 {
            "7"
        } else if d == 8 {
            "8"
        } else {
            "9"
        };
        proof {
            assert(ds@.len() == 1);
            assert(is_digit(ds@[0]) && digit_val(ds@[0]) == d as int);
            digits_lsf = digits_lsf.push(ds@[0]);
        }
        stack.push(ds);
        cur = cur / 10;
        proof {
            lemma_dec_val_lsf_push(old_digits, ds@[0]);
            assert forall|k: int| 0 <= k < digits_lsf.len() implies is_digit(
                #[trigger] digits_lsf[k],
            ) by {
                if k < old_digits.len() {
                    assert(digits_lsf[k] == old_digits[k]);
                }
            }
            let p = pow10(old_digits.len());
            assert(old_cur == 10 * (cur as int) + d);
            assert(old_cur * p == (cur as int) * (10 * p) + d * p) by (nonlinear_arith)
                requires
                    old_cur == 10 * (cur as int) + d,
            ;
            assert(pow10(digits_lsf.len()) == 10 * p);
            // The canonical text grows by this digit at the front of
            // the reversed tail.
            let c = ds@[0];
            assert(digit_char(d as int) == c);
            assert(digits_lsf.reverse() =~= seq![c] + old_digits.reverse());
            if old_cur < 10 {
                assert(dec_text(old_cur) =~= seq![c]);
                assert(dec_text(m as int) =~= digits_lsf.reverse());
            } else {
                assert(dec_text(old_cur) == dec_text(cur as int).push(digit_char(
                    old_cur % 10,
                )));
                assert(old_cur % 10 == d);
                assert(dec_text(old_cur) =~= dec_text(cur as int) + seq![c]);
                assert(dec_text(m as int) =~= dec_text(cur as int) + digits_lsf.reverse());
            }
        }
    }
    let mut out = String::new();
    let mut i = stack.len();
    proof {
        assert(digits_lsf.skip(i as int).reverse() =~= Seq::<char>::empty());
    }
    while i > 0
        invariant
            i <= stack@.len(),
            out@ =~= digits_lsf.skip(i as int).reverse(),
        decreases i,
    {
        i = i - 1;
        let ds = stack[i];
        out.append(ds);
        proof {
            assert(ds@ =~= seq![digits_lsf[i as int]]);
            assert(out@ =~= digits_lsf.skip(i as int).reverse());
        }
    }
    proof {
        assert(digits_lsf.skip(0) =~= digits_lsf);
        lemma_dec_val_reverse(digits_lsf);
        assert forall|k: int| 0 <= k < out@.len() implies is_digit(#[trigger] out@[k]) by {
            assert(out@[k] == digits_lsf[digits_lsf.len() - 1 - k]);
        }
        assert(out@ == dec_text(m as int));
    }
    out
}

/// Render a count as decimal digits.
pub fn usize_to_text(n: usize) -> (r: String)
    ensures
        all_digits(r@),
        r@.len() >= 1,
        dec_val(r@) == n as int,
        r@ == dec_text(n as int),
{
    u64_to_text(n as u64)
}

/// Render a 32-bit signed integer as text that parses back to it.
pub fn i32_to_text(v: i32) -> (r: String)
    ensures
        spec_parse_int(r@) == Some(v as int),
        r@ == spec_int_text(v as int),
{
    if v >= 0 {
        let r = u64_to_text(v as u64);
        proof {
            assert(is_digit(r@[0]));
            assert(r@[0] != '-' && r@[0] != '+');
        }
        r
    } else {
        proof {
            reveal_strlit("-");
        }
        let magnitude: u64 = (-(v as i64)) as u64;
        let digits = u64_to_text(magnitude);
        let mut r = String::from_str("-");
        r.append(digits.as_str());
        proof {
            assert(r@[0] == '-');
            assert(r@.skip(1) =~= digits@);
            assert(r@ =~= seq!['-'] + dec_text(-(v as int)));
        }
        r
    }
}

/// Parse a boolean from text.
pub fn parse_bool_text(s: &str) -> (r: Option<bool>)
    ensures
        r == spec_parse_bool(s@),
{
    if str_eq(s, "true") {
        Some(true)
    } else if str_eq(s, "false") {
        Some(false)
    } else {
        None
    }
}

/// Parse a 32-bit signed integer from text.
#[verifier::loop_isolation(false)]
pub fn parse_int_text(s: &str) -> (r: Option<i32>)
    ensures
        spec_parse_int(s@) is Some <==> r is Some,
        r is Some ==> r->0 as int == spec_parse_int(s@)->0,
{
    let v = chars_of(s);
    let n = v.len();
    let mut negative: bool = false;
    let mut start: usize = 0;
    if n > 0 && (v[0] == '-' || v[0] == '+') {
        negative = v[0] == '-';
        start = 1;
    }
    let ghost digits = if s@.len() > 0 && (s@[0] == '-' || s@[0] == '+') {
        s@.skip(1)
    } else {
        s@
    };
    proof {
        assert(digits =~= s@.subrange(start as int, n as int));
    }
    if n == start {
        return None;
    }
    let mut acc: u64 = 0;
    let mut i: usize = start;
    while i < n
        invariant
            start <= i <= n,
            n == s@.len(),
            v@ == s@,
            start <= 1,
            digits =~= s@.subrange(start as int, n as int),
            all_digits(s@.subrange(start as int, i as int)),
            acc == dec_val(s@.subrange(start as int, i as int)),
            acc <= 0x8000_0000,
        decreases n - i,
    {
        let c = v[i];
        let cu = c as u32;
        let ghost prefix = s@.subrange(start as int, i as int);
        let ghost extended = s@.subrange(start as int, i + 1 as int);
        proof {
            assert(extended.drop_last() =~= prefix);
            assert(extended.last() == s@[i as int]);
        }
        if !(48 <= cu && cu <= 57) {
            proof {
                assert(digits[i - start] == s@[i as int]);
                assert(!is_digit(digits[i - start]));
                assert(!all_digits(digits));
                assert(spec_parse_int(s@) is None);
            }
            return None;
        }
        let d = (cu - 48) as u64;
        if acc > 214748364 || (acc == 214748364 && d > 8) {
            proof {
                assert(digit_val(extended.last()) == d);
                assert(dec_val(extended) == acc * 10 + d);
                assert(dec_val(extended) > 0x8000_0000);
                if all_digits(digits) {
                    assert(extended =~= digits.take(i + 1 - start));
                    lemma_dec_val_prefix_le(digits, i + 1 - start);
                    assert(dec_val(digits) > 0x8000_0000);
                    assert(spec_parse_int(s@) is None);
                } else {
                    assert(spec_parse_int(s@) is None);
                }
            }
            return None;
        }
        acc = acc * 10 + d;
        i = i + 1;
        proof {
            assert(s@.subrange(start as int, i as int) =~= extended);
        }
    }
    proof {
        assert(s@.subrange(start as int, i as int) =~= digits);
    }
    if negative {
        if acc == 0x8000_0000 {
            Some(i32::MIN)
        } else {
            Some(-(acc as i32))
        }
    } else {
        if acc <= 0x7fff_ffff {
            Some(acc as i32)
        } else {
            None
        }
    }
}

/// Whether every character in the given range of the vector is a digit.
#[verifier::loop_isolation(false)]
fn all_digits_range(v: &Vec<char>, from: usize, to: usize) -> (r: bool)
    requires
        from <= to <= v@.len(),
    ensures
        r == all_digits(v@.subrange(from as int, to as int)),
{
    let mut i: usize = from;
    while i < to
        invariant
            from <= i <= to <= v@.len(),
            forall|j: int| from <= j < i ==> is_digit(v@[j]),
        decreases to - i,
    {
        let cu = v[i] as u32;
        if !(48 <= cu && cu <= 57) {
            assert(!all_digits(v@.subrange(from as int, to as int))) by {
                assert(v@.subrange(from as int, to as int)[i - from] == v@[i as int]);
            }
            return false;
        }
        i = i + 1;
    }
    assert forall|j: int| 0 <= j < to - from implies is_digit(
        v@.subrange(from as int, to as int)[j],
    ) by {
        assert(v@.subrange(from as int, to as int)[j] == v@[from + j]);
    }
    true
}

/// The recursive first-occurrence search, characterized by position.
pub proof fn lemma_first_index2(s: Seq<char>, c1: char, c2: char)
    ensures
        match first_index2(s, c1, c2) {
            None => forall|j: int| 0 <= j < s.len() ==> s[j] != c1 && s[j] != c2,
            Some(i) => 0 <= i < s.len() && (s[i] == c1 || s[i] == c2) && forall|j: int|
                0 <= j < i ==> s[j] != c1 && s[j] != c2,
        },
    decreases s.len(),
{
    if s.len() > 0 && !(s[0] == c1 || s[0] == c2) {
        lemma_first_index2(s.skip(1), c1, c2);
        assert forall|j: int| 1 <= j < s.len() implies s[j] == s.skip(1)[j - 1] by {}
    }
}

/// Find the first occurrence of either character at or after `from`.
#[verifier::loop_isolation(false)]
pub fn find_char2(v: &Vec<char>, from: usize, c1: char, c2: char) -> (r: Option<usize>)
    requires
        from <= v@.len(),
    ensures
        match r {
            None => first_index2(v@.skip(from as int), c1, c2) is None,
            Some(i) => from <= i < v@.len() && first_index2(v@.skip(from as int), c1, c2) == Some(
                i - from,
            ),
        },
{
    let ghost tail = v@.skip(from as int);
    proof {
        lemma_first_index2(tail, c1, c2);
    }
    let n = v.len();
    let mut i: usize = from;
    while i < n
        invariant
            from <= i <= n,
            n == v@.len(),
            tail == v@.skip(from as int),
            forall|j: int| from <= j < i ==> v@[j] != c1 && v@[j] != c2,
        decreases n - i,
    {
        let c = v[i];
        if c == c1 || c == c2 {
            proof {
                assert(tail[i - from] == v@[i as int]);
                assert forall|j: int| 0 <= j < i - from implies tail[j] != c1 && tail[j] != c2 by {
                    assert(tail[j] == v@[from + j]);
                }
                match first_index2(tail, c1, c2) {
                    None => {
                        assert(false);
                    },
                    Some(ip) => {
                        if ip < i - from {
                            assert(tail[ip] != c1 && tail[ip] != c2);
                        } else if ip > i - from {
                            assert(tail[i - from] != c1 && tail[i - from] != c2);
                        }
                    },
                }
            }
            return Some(i);
        }
        i = i + 1;
    }
    proof {
        assert forall|j: int| 0 <= j < tail.len() implies tail[j] != c1 && tail[j] != c2 by {
            assert(tail[j] == v@[from + j]);
        }
    }
    None
}

/// Whether the characters from `from` on match a lower-case keyword,
/// ignoring ASCII case.
#[verifier::loop_isolation(false)]
fn matches_keyword(v: &Vec<char>, from: usize, kw: &str) -> (r: bool)
    requires
        from <= v@.len(),
    ensures
        r == matches_ignore_case(v@.skip(from as int), kw@),
{
    let ghost tail = v@.skip(from as int);
    let klen = kw.unicode_len();
    if v.len() - from != klen {
        return false;
    }
    let mut i: usize = 0;
    while i < klen
        invariant
            0 <= i <= klen,
            klen == kw@.len(),
            from + klen == v@.len(),
            tail == v@.skip(from as int),
            forall|j: int| 0 <= j < i ==> char_matches_lower(tail[j], kw@[j]),
        decreases klen - i,
    {
        assert(from + i < v@.len());
        let c = v[from + i];
        let k = kw.get_char(i);
        let cu = c as u32;
        let ku = k as u32;
        proof {
            assert(tail[i as int] == v@[from + i]);
        }
        if !(c == k || (97 <= ku && ku <= 122 && cu == ku - 32)) {
            assert(!char_matches_lower(tail[i as int], kw@[i as int]));
            return false;
        }
        assert(char_matches_lower(tail[i as int], kw@[i as int]));
        i = i + 1;
    }
    true
}

/// Check a text against the float grammar.
pub fn check_float_text(s: &str) -> (r: bool)
    ensures
        r == spec_is_float_text(s@),
{
    let v = chars_of(s);
    let n = v.len();
    let mut start: usize = 0;
    if n > 0 && (v[0] == '+' || v[0] == '-') {
        start = 1;
    }
    let ghost body = if s@.len() > 0 && (s@[0] == '+' || s@[0] == '-') {
        s@.skip(1)
    } else {
        s@
    };
    proof {
        assert(body =~= v@.skip(start as int));
    }
    if matches_keyword(&v, start, "inf") || matches_keyword(&v, start, "infinity")
        || matches_keyword(&v, start, "nan") {
        return true;
    }
    // Not a keyword: check the number grammar.
    let (mantissa_end, has_exp): (usize, bool) = match find_char2(&v, start, 'e', 'E') {
        Some(i) => (i, true),
        None => (n, false),
    };
    let ghost mantissa = v@.subrange(start as int, mantissa_end as int);
    proof {
        if has_exp {
            assert(mantissa =~= body.take(mantissa_end - start));
        } else {
            assert(mantissa =~= body);
        }
    }
    let mantissa_ok: bool = match find_char2_bounded(&v, start, mantissa_end, '.') {
        None => mantissa_end > start && all_digits_range(&v, start, mantissa_end),
        Some(dot) => {
            let before_ok = all_digits_range(&v, start, dot);
            let after_ok = all_digits_range(&v, dot + 1, mantissa_end);
            proof {
                assert(mantissa.take(dot - start) =~= v@.subrange(start as int, dot as int));
                assert(mantissa.skip(dot - start + 1) =~= v@.subrange(
                    dot + 1 as int,
                    mantissa_end as int,
                ));
            }
            before_ok && after_ok && (dot > start || dot + 1 < mantissa_end)
        },
    };
    proof {
        assert(mantissa_ok == is_mantissa(mantissa));
    }
    if !has_exp {
        return mantissa_ok;
    }
    if !mantissa_ok {
        return false;
    }
    // Check the exponent suffix after the `e` or `E`.
    let ghost exp = body.skip(mantissa_end + 1 - start);
    let mut exp_start: usize = mantissa_end + 1;
    let ghost exp_digits = if exp.len() > 0 && (exp[0] == '+' || exp[0] == '-') {
        exp.skip(1)
    } else {
        exp
    };
    if exp_start < n && (v[exp_start] == '+' || v[exp_start] == '-') {
        exp_start = exp_start + 1;
    }
    proof {
        assert(exp_digits =~= v@.subrange(exp_start as int, n as int));
    }
    let r = exp_start < n && all_digits_range(&v, exp_start, n);
    proof {
        assert(r == is_exp_suffix(exp));
    }
    r
}

/// Find the first occurrence of a character in `[from, to)`.
#[verifier::loop_isolation(false)]
fn find_char2_bounded(v: &Vec<char>, from: usize, to: usize, c: char) -> (r: Option<usize>)
    requires
        from <= to <= v@.len(),
    ensures
        match r {
            None => first_index2(v@.subrange(from as int, to as int), c, c) is None,
            Some(i) => from <= i < to && first_index2(v@.subrange(from as int, to as int), c, c)
                == Some(i - from),
        },
{
    let ghost range = v@.subrange(from as int, to as int);
    proof {
        lemma_first_index2(range, c, c);
    }
    let mut i: usize = from;
    while i < to
        invariant
            from <= i <= to <= v@.len(),
            range == v@.subrange(from as int, to as int),
            forall|j: int| from <= j < i ==> v@[j] != c,
        decreases to - i,
    {
        if v[i] == c {
            proof {
                assert(range[i - from] == v@[i as int]);
                assert forall|j: int| 0 <= j < i - from implies range[j] != c by {
                    assert(range[j] == v@[from + j]);
                }
                match first_index2(range, c, c) {
                    None => {
                        assert(false);
                    },
                    Some(ip) => {
                        if ip < i - from {
                            assert(range[ip] != c);
                        } else if ip > i - from {
                            assert(range[i - from] != c);
                        }
                    },
                }
            }
            return Some(i);
        }
        i = i + 1;
    }
    proof {
        assert forall|j: int| 0 <= j < range.len() implies range[j] != c by {
            assert(range[j] == v@[from + j]);
        }
    }
    None
}

} // verus!
