//! Character-level helpers: decimal digits, and the syntax that std's
//! unsigned-integer and float parsers accept.

use vstd::prelude::*;

verus! {

/// An ASCII decimal digit.
pub open spec fn is_digit(c: char) -> bool {
    '0' <= c && c <= '9'
}

/// The value of an ASCII decimal digit.
pub open spec fn digit_value(c: char) -> nat {
    (c as int - '0' as int) as nat
}

/// The digit character for a value below ten.
pub open spec fn digit_char(d: nat) -> char {
    if d == 0 {
        '0'
    } else if d == 1 {
        '1'
    } else if d == 2 {
        '2'
    } else if d == 3 {
        '3'
    } else if d == 4 {
        '4'
    } else if d == 5 {
        '5'
    } else if d == 6 {
        '6'
    } else if d == 7 {
        '7'
    } else if d == 8 {
        '8'
    } else {
        '9'
    }
}

/// The value of a string of decimal digits, most significant first.
pub open spec fn digits_value(s: Seq<char>) -> nat
    decreases s.len(),
{
    if s.len() == 0 {
        0
    } else {
        digits_value(s.drop_last()) * 10 + digit_value(s.last())
    }
}

pub open spec fn all_digits(s: Seq<char>) -> bool {
    forall|i: int| 0 <= i < s.len() ==> is_digit(#[trigger] s[i])
}

/// The canonical decimal text of `n`, as `Display` writes it for an integer:
/// no sign and no leading zeros.
pub open spec fn decimal(n: nat) -> Seq<char>
    decreases n,
{
    if n < 10 {
        seq![digit_char(n)]
    } else {
        decimal(n / 10).push(digit_char(n % 10))
    }
}

/// Digits without superfluous leading zeros.
pub open spec fn is_canonical_decimal(s: Seq<char>) -> bool {
    &&& s.len() > 0
    &&& all_digits(s)
    &&& (s[0] != '0' || s.len() == 1)
}

/// What `u16::from_str` and `u32::from_str` accept: an optional `+`, then one or
/// more ASCII digits whose value is at most `max`. The result is that value.
pub open spec fn std_unsigned(s: Seq<char>, max: nat) -> Option<nat> {
    let d = if s.len() > 0 && s[0] == '+' {
        s.drop_first()
    } else {
        s
    };
    if d.len() > 0 && all_digits(d) && digits_value(d) <= max {
        Some(digits_value(d))
    } else {
        None
    }
}

pub proof fn lemma_digit_char(d: nat)
    requires
        d < 10,
    ensures
        is_digit(digit_char(d)),
        digit_value(digit_char(d)) == d,
        digit_char(d) == '0' <==> d == 0,
{
}

pub proof fn lemma_digit_roundtrip(c: char)
    requires
        is_digit(c),
    ensures
        digit_value(c) < 10,
        digit_char(digit_value(c)) == c,
{
    assert(c == '0' || c == '1' || c == '2' || c == '3' || c == '4' || c == '5' || c == '6'
        || c == '7' || c == '8' || c == '9') by {
        let v = c as int;
        assert(48 <= v <= 57);
    }
}

/// A prefix of a digit string never has a larger value than the whole.
pub proof fn lemma_prefix_value_le(s: Seq<char>, k: int)
    requires
        0 <= k <= s.len(),
    ensures
        digits_value(s.take(k)) <= digits_value(s),
    decreases s.len(),
{
    if k == s.len() {
        assert(s.take(k) =~= s);
    } else {
        lemma_prefix_value_le(s.drop_last(), k);
        assert(s.drop_last().take(k) =~= s.take(k));
    }
}

/// The decimal text of a number is canonical and reads back as the number.
pub proof fn lemma_decimal(n: nat)
    ensures
        is_canonical_decimal(decimal(n)),
        digits_value(decimal(n)) == n,
        decimal(n)[0] == '0' <==> n == 0,
    decreases n,
{
    if n < 10 {
        lemma_digit_char(n);
        assert(decimal(n).drop_last() =~= Seq::<char>::empty());
        assert(digits_value(Seq::<char>::empty()) == 0);
        assert(decimal(n).last() == digit_char(n));
    } else {
        lemma_decimal(n / 10);
        lemma_digit_char(n % 10);
        let d = decimal(n);
        assert(d.drop_last() =~= decimal(n / 10));
        assert(d.last() == digit_char(n % 10));
        assert(digits_value(d) == digits_value(decimal(n / 10)) * 10 + digit_value(d.last()));
        assert((n / 10) * 10 + n % 10 == n);
        assert(d[0] == decimal(n / 10)[0]);
        assert forall|i: int| 0 <= i < d.len() implies is_digit(#[trigger] d[i]) by {
            if i < d.len() - 1 {
                assert(d[i] == decimal(n / 10)[i]);
            }
        }
    }
}

/// A digit string with a nonzero first digit has a nonzero value.
pub proof fn lemma_leading_nonzero(s: Seq<char>)
    requires
        s.len() > 0,
        all_digits(s),
        s[0] != '0',
    ensures
        digits_value(s) >= 1,
{
    lemma_prefix_value_le(s, 1);
    let p = s.take(1);
    assert(p.drop_last() =~= Seq::<char>::empty());
    assert(is_digit(s[0]));
}

/// Canonical decimal text is the decimal text of its own value.
pub proof fn lemma_canonical_is_decimal(s: Seq<char>)
    requires
        is_canonical_decimal(s),
    ensures
        decimal(digits_value(s)) == s,
    decreases s.len(),
{
    assert(is_digit(s.last()));
    lemma_digit_roundtrip(s.last());
    if s.len() == 1 {
        assert(s.drop_last() =~= Seq::<char>::empty());
        assert(digits_value(Seq::<char>::empty()) == 0);
        assert(digits_value(s) == digit_value(s.last()));
        assert(s.last() == s[0]);
        assert(decimal(digits_value(s)) =~= s);
    } else {
        let p = s.drop_last();
        assert(p[0] == s[0]);
        assert forall|i: int| 0 <= i < p.len() implies is_digit(#[trigger] p[i]) by {
            assert(p[i] == s[i]);
        }
        lemma_leading_nonzero(p);
        lemma_canonical_is_decimal(p);
        let v = digits_value(s);
        assert(v / 10 == digits_value(p));
        assert(v % 10 == digit_value(s.last()));
        assert(decimal(v) =~= s);
    }
}

/// Two numbers with the same decimal text are equal.
pub proof fn lemma_decimal_injective(a: nat, b: nat)
    requires
        decimal(a) == decimal(b),
    ensures
        a == b,
{
    lemma_decimal(a);
    lemma_decimal(b);
}

fn char_is_digit(c: char) -> (r: bool)
    ensures
        r == is_digit(c),
{
    '0' <= c && c <= '9'
}

fn digit_of(c: char) -> (d: u64)
    requires
        is_digit(c),
    ensures
        d == digit_value(c),
        d < 10,
{
    (c as u32 - '0' as u32) as u64
}

/// Parses like `u16::from_str` or `u32::from_str` (picked by `max`).
pub fn parse_unsigned(chars: &[char], max: u64) -> (r: Option<u64>)
    requires
        max <= u32::MAX,
    ensures
        match std_unsigned(chars@, max as nat) {
            Some(v) => r == Some(v as u64),
            None => r is None,
        },
{
    let n = chars.len();
    let mut start: usize = 0;
    if n > 0 && chars[0] == '+' {
        start = 1;
    }
    let ghost d = if chars@.len() > 0 && chars@[0] == '+' {
        chars@.drop_first()
    } else {
        chars@
    };
    assert(d =~= chars@.subrange(start as int, n as int));
    if start == n {
        return None;
    }
    let mut i: usize = start;
    let mut v: u64 = 0;
    while i < n
        invariant
            start <= i <= n,
            n == chars@.len(),
            d == chars@.subrange(start as int, n as int),
            d == (if chars@.len() > 0 && chars@[0] == '+' {
                chars@.drop_first()
            } else {
                chars@
            }),
            v <= max <= u32::MAX,
            v == digits_value(chars@.subrange(start as int, i as int)),
            all_digits(chars@.subrange(start as int, i as int)),
        decreases n - i,
    {
        let c = chars[i];
        if !char_is_digit(c) {
            assert(d[i - start] == c);
            assert(!is_digit(d[i - start]));
            return None;
        }
        let dv = digit_of(c);
        let ghost prev = chars@.subrange(start as int, i as int);
        let ghost next = chars@.subrange(start as int, i + 1);
        assert(next.drop_last() =~= prev);
        assert(next.last() == c);
        assert forall|j: int| 0 <= j < next.len() implies is_digit(#[trigger] next[j]) by {
            if j < prev.len() {
                assert(next[j] == prev[j]);
            }
        }
        v = v * 10 + dv;
        if v > max {
            proof {
                lemma_prefix_value_le(d, (i + 1 - start) as int);
                assert(d.take((i + 1 - start) as int) =~= next);
            }
            return None;
        }
        i = i + 1;
    }
    assert(chars@.subrange(start as int, n as int) =~= d);
    Some(v)
}

/// Accepts exactly the canonical decimal text of a `u16`.
pub fn parse_canonical_u16(chars: &[char]) -> (r: Option<u16>)
    ensures
        match r {
            Some(v) => chars@ == decimal(v as nat),
            None => forall|v: u16| chars@ != decimal(v as nat),
        },
{
    let n = chars.len();
    if n == 0 || !char_is_digit(chars[0]) || (chars[0] == '0' && n > 1) {
        proof {
            assert forall|v: u16| chars@ != decimal(v as nat) by {
                lemma_decimal(v as nat);
            }
        }
        return None;
    }
    match parse_unsigned(chars, 65535) {
        Some(v) => {
            proof {
                lemma_canonical_is_decimal(chars@);
            }
            Some(v as u16)
        },
        None => {
            proof {
                assert forall|v: u16| chars@ != decimal(v as nat) by {
                    lemma_decimal(v as nat);
                }
            }
            None
        },
    }
}

fn digit_str(d: u64) -> (r: &'static str)
    requires
        d < 10,
    ensures
        r@ == seq![digit_char(d as nat)],
{
    proof {
        reveal_strlit("0");
        reveal_strlit("1");
        reveal_strlit("2");
        reveal_strlit("3");
        reveal_strlit("4");
        reveal_strlit("5");
        reveal_strlit("6");
        reveal_strlit("7");
        reveal_strlit("8");
        reveal_strlit("9");
    }
    if d == 0 {
        "0"
    } else if d == 1 {
        "1"
    } else if d == 2 {
        "2"
    } else if d == 3 {
        "3"
    } else if d == 4 {
        "4"
    } else if d == 5 {
        "5"
    } else if d == 6 {
        "6"
    } else if d == 7 {
        "7"
    } else if d == 8 {
        "8"
    } else {
        "9"
    }
}

/// Appends the decimal text of `n`, as `Display` writes it.
pub fn append_decimal(s: &mut String, n: u64)
    ensures
        final(s)@ == old(s)@ + decimal(n as nat),
    decreases n,
{
    if n >= 10 {
        append_decimal(s, n / 10);
    }
    s.append(digit_str(n % 10));
    assert(final(s)@ =~= old(s)@ + decimal(n as nat));
}


pub open spec fn is_sign(c: char) -> bool {
    c == '+' || c == '-'
}

pub open spec fn is_exponent_marker(c: char) -> bool {
    c == 'e' || c == 'E'
}

pub open spec fn strip_sign(s: Seq<char>) -> Seq<char> {
    if s.len() > 0 && is_sign(s[0]) {
        s.drop_first()
    } else {
        s
    }
}

/// `c` is the ASCII letter `lower` in either case.
pub open spec fn either_case(c: char, lower: char, upper: char) -> bool {
    c == lower || c == upper
}

pub open spec fn is_inf_word(u: Seq<char>) -> bool {
    &&& u.len() == 3
    &&& either_case(u[0], 'i', 'I')
    &&& either_case(u[1], 'n', 'N')
    &&& either_case(u[2], 'f', 'F')
}

pub open spec fn is_infinity_word(u: Seq<char>) -> bool {
    &&& u.len() == 8
    &&& either_case(u[0], 'i', 'I')
    &&& either_case(u[1], 'n', 'N')
    &&& either_case(u[2], 'f', 'F')
    &&& either_case(u[3], 'i', 'I')
    &&& either_case(u[4], 'n', 'N')
    &&& either_case(u[5], 'i', 'I')
    &&& either_case(u[6], 't', 'T')
    &&& either_case(u[7], 'y', 'Y')
}

pub open spec fn is_nan_word(u: Seq<char>) -> bool {
    &&& u.len() == 3
    &&& either_case(u[0], 'n', 'N')
    &&& either_case(u[1], 'a', 'A')
    &&& either_case(u[2], 'n', 'N')
}

/// `Digit+ | Digit+ '.' Digit* | Digit* '.' Digit+`: digits with at most one
/// decimal point and at least one digit.
pub open spec fn is_mantissa(m: Seq<char>) -> bool {
    &&& forall|i: int| 0 <= i < m.len() ==> is_digit(#[trigger] m[i]) || m[i] == '.'
    &&& forall|i: int, j: int| 0 <= i < j < m.len() && #[trigger] m[i] == '.' ==> #[trigger] m[j] != '.'
    &&& exists|i: int| 0 <= i < m.len() && is_digit(#[trigger] m[i])
}

/// `Sign? Digit+`, the part after the exponent marker.
pub open spec fn is_exponent_digits(x: Seq<char>) -> bool {
    let d = strip_sign(x);
    d.len() > 0 && all_digits(d)
}

/// `Number ::= Mantissa Exp?` with `Exp ::= 'e' Sign? Digit+`.
pub open spec fn is_decimal_number(u: Seq<char>) -> bool {
    ||| is_mantissa(u)
    ||| exists|k: int|
        0 <= k < u.len() && is_exponent_marker(#[trigger] u[k]) && is_mantissa(u.take(k))
            && is_exponent_digits(u.skip(k + 1))
}

/// What `f64::from_str` accepts, by the grammar its documentation gives:
/// `Sign? ( 'inf' | 'infinity' | 'nan' | Number )`, letters in either case.
pub open spec fn is_float_text(s: Seq<char>) -> bool {
    let u = strip_sign(s);
    is_inf_word(u) || is_infinity_word(u) || is_nan_word(u) || is_decimal_number(u)
}

fn either_case_exec(c: char, lower: char, upper: char) -> (r: bool)
    ensures
        r == either_case(c, lower, upper),
{
    c == lower || c == upper
}

fn word_at(chars: &[char], lo: usize, hi: usize) -> (r: (bool, bool, bool))
    requires
        lo <= hi <= chars@.len(),
    ensures
        r.0 == is_inf_word(chars@.subrange(lo as int, hi as int)),
        r.1 == is_infinity_word(chars@.subrange(lo as int, hi as int)),
        r.2 == is_nan_word(chars@.subrange(lo as int, hi as int)),
{
    let ghost u = chars@.subrange(lo as int, hi as int);
    let len = hi - lo;
    let mut inf = false;
    let mut nan = false;
    let mut infinity = false;
    if len == 3 {
        inf = either_case_exec(chars[lo], 'i', 'I') && either_case_exec(chars[lo + 1], 'n', 'N')
            && either_case_exec(chars[lo + 2], 'f', 'F');
        nan = either_case_exec(chars[lo], 'n', 'N') && either_case_exec(chars[lo + 1], 'a', 'A')
            && either_case_exec(chars[lo + 2], 'n', 'N');
        assert(u[0] == chars@[lo as int] && u[1] == chars@[lo + 1] && u[2] == chars@[lo + 2]);
    }
    if len == 8 {
        infinity = either_case_exec(chars[lo], 'i', 'I') && either_case_exec(chars[lo + 1], 'n', 'N')
            && either_case_exec(chars[lo + 2], 'f', 'F') && either_case_exec(chars[lo + 3], 'i', 'I')
            && either_case_exec(chars[lo + 4], 'n', 'N') && either_case_exec(chars[lo + 5], 'i', 'I')
            && either_case_exec(chars[lo + 6], 't', 'T') && either_case_exec(chars[lo + 7], 'y', 'Y');
        assert(u[0] == chars@[lo as int] && u[1] == chars@[lo + 1] && u[2] == chars@[lo + 2]);
        assert(u[3] == chars@[lo + 3] && u[4] == chars@[lo + 4] && u[5] == chars@[lo + 5]);
        assert(u[6] == chars@[lo + 6] && u[7] == chars@[lo + 7]);
    }
    (inf, infinity, nan)
}

fn mantissa_at(chars: &[char], lo: usize, hi: usize) -> (r: bool)
    requires
        lo <= hi <= chars@.len(),
    ensures
        r == is_mantissa(chars@.subrange(lo as int, hi as int)),
{
    let ghost u = chars@.subrange(lo as int, hi as int);
    let mut i = lo;
    let mut seen_dot = false;
    let mut seen_digit = false;
    let ghost mut dot_pos: int = 0;
    let ghost mut digit_pos: int = 0;
    while i < hi
        invariant
            lo <= i <= hi <= chars@.len(),
            u == chars@.subrange(lo as int, hi as int),
            forall|k: int| lo <= k < i ==> is_digit(#[trigger] chars@[k]) || chars@[k] == '.',
            seen_dot ==> lo <= dot_pos < i && chars@[dot_pos] == '.',
            seen_dot ==> forall|k: int| lo <= k < i && k != dot_pos ==> #[trigger] chars@[k] != '.',
            !seen_dot ==> forall|k: int| lo <= k < i ==> #[trigger] chars@[k] != '.',
            seen_digit ==> lo <= digit_pos < i && is_digit(chars@[digit_pos]),
            !seen_digit ==> forall|k: int| lo <= k < i ==> !is_digit(#[trigger] chars@[k]),
        decreases hi - i,
    {
        let c = chars[i];
        if c == '.' {
            if seen_dot {
                assert(u[dot_pos - lo] == '.' && u[i - lo] == '.');
                return false;
            }
            seen_dot = true;
            proof {
                dot_pos = i as int;
            }
        } else if char_is_digit(c) {
            if !seen_digit {
                proof {
                    digit_pos = i as int;
                }
            }
            seen_digit = true;
        } else {
            assert(u[i - lo] == c);
            return false;
        }
        i = i + 1;
    }
    if seen_digit {
        assert(u[digit_pos - lo] == chars@[digit_pos]);
    } else {
        assert forall|k: int| 0 <= k < u.len() implies !is_digit(#[trigger] u[k]) by {
            assert(u[k] == chars@[lo + k]);
        }
    }
    assert forall|a: int, b: int| 0 <= a < b < u.len() && #[trigger] u[a] == '.' implies #[trigger] u[b] != '.' by {
        assert(u[a] == chars@[lo + a]);
        assert(u[b] == chars@[lo + b]);
    }
    assert forall|k: int| 0 <= k < u.len() implies is_digit(#[trigger] u[k]) || u[k] == '.' by {
        assert(u[k] == chars@[lo + k]);
    }
    seen_digit
}

fn exponent_digits_at(chars: &[char], lo: usize, hi: usize) -> (r: bool)
    requires
        lo <= hi <= chars@.len(),
    ensures
        r == is_exponent_digits(chars@.subrange(lo as int, hi as int)),
{
    let ghost x = chars@.subrange(lo as int, hi as int);
    let mut i = lo;
    if i < hi && (chars[i] == '+' || chars[i] == '-') {
        i = i + 1;
    }
    assert(strip_sign(x) =~= chars@.subrange(i as int, hi as int));
    if i == hi {
        return false;
    }
    let start = i;
    while i < hi
        invariant
            lo <= start <= i <= hi <= chars@.len(),
            x == chars@.subrange(lo as int, hi as int),
            strip_sign(x) == chars@.subrange(start as int, hi as int),
            forall|k: int| start <= k < i ==> is_digit(#[trigger] chars@[k]),
        decreases hi - i,
    {
        if !char_is_digit(chars[i]) {
            assert(strip_sign(x)[i - start] == chars@[i as int]);
            return false;
        }
        i = i + 1;
    }
    assert forall|k: int| 0 <= k < strip_sign(x).len() implies is_digit(#[trigger] strip_sign(x)[k]) by {
        assert(strip_sign(x)[k] == chars@[start + k]);
    }
    true
}

fn decimal_number_at(chars: &[char], lo: usize, hi: usize) -> (r: bool)
    requires
        lo <= hi <= chars@.len(),
    ensures
        r == is_decimal_number(chars@.subrange(lo as int, hi as int)),
{
    let ghost u = chars@.subrange(lo as int, hi as int);
    let mut i = lo;
    while i < hi && !(chars[i] == 'e' || chars[i] == 'E')
        invariant
            lo <= i <= hi <= chars@.len(),
            forall|k: int| lo <= k < i ==> !is_exponent_marker(#[trigger] chars@[k]),
        decreases hi - i,
    {
        i = i + 1;
    }
    if i == hi {
        proof {
            assert forall|k: int| 0 <= k < u.len() implies !is_exponent_marker(#[trigger] u[k]) by {
                assert(u[k] == chars@[lo + k]);
            }
        }
        return mantissa_at(chars, lo, hi);
    }
    let k = i;
    let m = mantissa_at(chars, lo, k);
    let x = exponent_digits_at(chars, k + 1, hi);
    let ghost kk = k - lo;
    assert(u.take(kk) =~= chars@.subrange(lo as int, k as int));
    assert(u.skip(kk + 1) =~= chars@.subrange(k + 1, hi as int));
    assert(u[kk] == chars@[k as int]);
    assert(!is_mantissa(u)) by {
        assert(!is_digit(u[kk]) && u[kk] != '.');
    }
    if !(m && x) {
        assert forall|j: int|
            0 <= j < u.len() && is_exponent_marker(#[trigger] u[j]) && is_mantissa(u.take(j))
                implies !is_exponent_digits(u.skip(j + 1)) by {
            if j < kk {
                assert(u[j] == chars@[lo + j]);
            } else if j > kk {
                assert(u.take(j)[kk] == u[kk]);
                assert(!is_digit(u.take(j)[kk]) && u.take(j)[kk] != '.');
            }
        }
    }
    m && x
}

/// Whether `f64::from_str` accepts the text.
pub fn accepts_float(chars: &[char]) -> (r: bool)
    ensures
        r == is_float_text(chars@),
{
    let n = chars.len();
    let lo: usize = if n > 0 && (chars[0] == '+' || chars[0] == '-') {
        1
    } else {
        0
    };
    assert(strip_sign(chars@) =~= chars@.subrange(lo as int, n as int));
    let (inf, infinity, nan) = word_at(chars, lo, n);
    if inf || infinity || nan {
        return true;
    }
    decimal_number_at(chars, lo, n)
}

} // verus!
