//! Fixed-point decimal numbers, counted in millionths.
//!
//! Sensor readings, file-name numbers and graph bounds are decimal text. They
//! are held here exactly, as an integer number of millionths, so that every
//! comparison, sum and mapping on them can be stated and proved.
use vstd::prelude::*;

verus! {

/// Millionths in one unit.
pub const MICROS_PER_UNIT: i64 = 1000000;

/// Magnitudes in millionths at or above this bound do not fit the type.
pub const MICROS_LIMIT: u128 = 0x8000000000000000;

/// The bound on the magnitude, in millionths, of what parsing produces: all
/// that an `i64` holds but its least value.
pub open spec fn parsed_limit() -> int {
    MICROS_LIMIT as int
}

/// A decimal number with six fractional digits, held as millionths.
#[derive(Clone, Copy, Debug, PartialEq, Eq, Structural)]
pub struct Fixed {
    pub micros: i64,
}

impl Fixed {
    /// The whole number `n`.
    pub fn from_int(n: i32) -> (r: Fixed)
        ensures
            r.micros == n * MICROS_PER_UNIT,
    {
        Fixed { micros: n as i64 * MICROS_PER_UNIT }
    }
}

pub open spec fn pow10(n: nat) -> nat
    decreases n,
{
    if n == 0 {
        1
    } else {
        10 * pow10((n - 1) as nat)
    }
}

pub open spec fn is_digit(c: char) -> bool {
    '0' <= c && c <= '9'
}

pub open spec fn digit_value(c: char) -> nat {
    (c as u32 - '0' as u32) as nat
}

pub open spec fn all_digits(s: Seq<char>) -> bool {
    forall|i: int| 0 <= i < s.len() ==> is_digit(#[trigger] s[i])
}

/// The number that the decimal digits `s` write.
pub open spec fn digits_value(s: Seq<char>) -> nat
    decreases s.len(),
{
    if s.len() == 0 {
        0
    } else {
        digits_value(s.drop_last()) * 10 + digit_value(s.last())
    }
}

/// Index of the first '.' in `s`, or its length when it holds none.
pub open spec fn dot_pos(s: Seq<char>) -> nat
    decreases s.len(),
{
    if s.len() == 0 {
        0
    } else if s[0] == '.' {
        0
    } else {
        1 + dot_pos(s.skip(1))
    }
}

pub open spec fn is_exp_marker(c: char) -> bool {
    c == 'e' || c == 'E'
}

/// Index of the first 'e' or 'E' in `s`, or its length when it holds none.
pub open spec fn exp_pos(s: Seq<char>) -> nat
    decreases s.len(),
{
    if s.len() == 0 {
        0
    } else if is_exp_marker(s[0]) {
        0
    } else {
        1 + exp_pos(s.skip(1))
    }
}

/// The text after an optional leading sign.
pub open spec fn unsigned_part(s: Seq<char>) -> Seq<char> {
    if s.len() > 0 && (s[0] == '+' || s[0] == '-') {
        s.skip(1)
    } else {
        s
    }
}

pub open spec fn is_negative_text(s: Seq<char>) -> bool {
    s.len() > 0 && s[0] == '-'
}

/// The digits and point before the exponent.
pub open spec fn mantissa(s: Seq<char>) -> Seq<char> {
    let b = unsigned_part(s);
    b.take(exp_pos(b) as int)
}

/// The text after the exponent marker, if there is one.
pub open spec fn exponent_part(s: Seq<char>) -> Option<Seq<char>> {
    let b = unsigned_part(s);
    if exp_pos(b) < b.len() {
        Some(b.skip(exp_pos(b) + 1int))
    } else {
        None
    }
}

/// The exponent's digits, after its optional sign.
pub open spec fn exponent_digits(t: Seq<char>) -> Seq<char> {
    unsigned_part(t)
}

pub open spec fn exponent_value(t: Seq<char>) -> int {
    if is_negative_text(t) {
        -digits_value(exponent_digits(t))
    } else {
        digits_value(exponent_digits(t)) as int
    }
}

pub open spec fn int_digits(s: Seq<char>) -> Seq<char> {
    let m = mantissa(s);
    m.take(dot_pos(m) as int)
}

pub open spec fn frac_digits(s: Seq<char>) -> Seq<char> {
    let m = mantissa(s);
    if dot_pos(m) < m.len() {
        m.skip(dot_pos(m) + 1int)
    } else {
        Seq::empty()
    }
}

/// How many of the mantissa's digits stand before the point of the value in
/// millionths: the integer digits, moved by the exponent, and six more.
pub open spec fn point_shift(s: Seq<char>) -> int {
    let e = match exponent_part(s) {
        Some(t) => exponent_value(t),
        None => 0,
    };
    int_digits(s).len() + e + 6
}

/// The whole number written by the digits `d` with the point after the
/// first `p` of them: a prefix of `d`, or `d` followed by zeros.
pub open spec fn shifted_value(d: Seq<char>, p: int) -> nat {
    if p <= 0 {
        0
    } else if p <= d.len() {
        digits_value(d.take(p))
    } else {
        digits_value(d) * pow10((p - d.len()) as nat)
    }
}

/// The magnitude in millionths that a number text writes, truncated.
pub open spec fn magnitude_micros(s: Seq<char>) -> nat {
    shifted_value(int_digits(s) + frac_digits(s), point_shift(s))
}

/// `s` is an optionally signed decimal number, with at least one digit, at
/// most one '.', and an optional exponent ('e' or 'E', an optional sign,
/// one or more digits), whose magnitude in millionths fits an `i64`.
pub open spec fn is_decimal_text(s: Seq<char>) -> bool {
    let i = int_digits(s);
    let f = frac_digits(s);
    &&& all_digits(i)
    &&& all_digits(f)
    &&& i.len() + f.len() > 0
    &&& match exponent_part(s) {
        Some(t) => exponent_digits(t).len() > 0 && all_digits(exponent_digits(t)),
        None => true,
    }
    &&& magnitude_micros(s) < parsed_limit()
}

/// The value in millionths that a number text writes, truncated toward zero.
pub open spec fn decimal_micros(s: Seq<char>) -> int {
    if is_negative_text(s) {
        -magnitude_micros(s)
    } else {
        magnitude_micros(s) as int
    }
}

/// What parsing `s` gives.
pub open spec fn parse_spec(s: Seq<char>) -> Option<Fixed> {
    if is_decimal_text(s) {
        Some(Fixed { micros: decimal_micros(s) as i64 })
    } else {
        None
    }
}

proof fn lemma_digits_value_push(s: Seq<char>, c: char)
    ensures
        digits_value(s.push(c)) == digits_value(s) * 10 + digit_value(c),
{
    assert(s.push(c).drop_last() =~= s);
}

proof fn lemma_digits_value_bound(s: Seq<char>)
    requires
        all_digits(s),
    ensures
        digits_value(s) < pow10(s.len()),
    decreases s.len(),
{
    if s.len() > 0 {
        let d = s.drop_last();
        assert(all_digits(d)) by {
            assert forall|i: int| 0 <= i < d.len() implies is_digit(#[trigger] d[i]) by {
                assert(d[i] == s[i]);
            }
        }
        lemma_digits_value_bound(d);
        assert(is_digit(s[s.len() - 1]));
        assert(digit_value(s.last()) < 10);
        assert(pow10(s.len()) == 10 * pow10(d.len()));
    }
}

proof fn lemma_pow10_positive(n: nat)
    ensures
        pow10(n) >= 1,
    decreases n,
{
    if n > 0 {
        lemma_pow10_positive((n - 1) as nat);
    }
}

proof fn lemma_pow10_add(a: nat, b: nat)
    ensures
        pow10(a) * pow10(b) == pow10(a + b),
    decreases a,
{
    if a > 0 {
        lemma_pow10_add((a - 1) as nat, b);
        assert(pow10(a + b) == 10 * pow10((a - 1 + b) as nat));
        assert(pow10(a) * pow10(b) == 10 * (pow10((a - 1) as nat) * pow10(b))) by (nonlinear_arith)
            requires
                pow10(a) == 10 * pow10((a - 1) as nat),
        ;
        assert((a - 1 + b) as nat == (a - 1) as nat + b);
    } else {
        assert(pow10(a) == 1);
        assert(a + b == b);
    }
}

proof fn lemma_dot_pos(s: Seq<char>, k: int)
    requires
        0 <= k <= s.len(),
        forall|j: int| 0 <= j < k ==> s[j] != '.',
        k == s.len() || s[k] == '.',
    ensures
        dot_pos(s) == k,
    decreases k,
{
    if k > 0 {
        lemma_dot_pos(s.skip(1), k - 1);
    }
}

proof fn lemma_exp_pos(s: Seq<char>, k: int)
    requires
        0 <= k <= s.len(),
        forall|j: int| 0 <= j < k ==> !is_exp_marker(#[trigger] s[j]),
        k == s.len() || is_exp_marker(s[k]),
    ensures
        exp_pos(s) == k,
    decreases k,
{
    if k > 0 {
        lemma_exp_pos(s.skip(1), k - 1);
    }
}

proof fn lemma_pow10_mono(a: nat, b: nat)
    requires
        a <= b,
    ensures
        pow10(a) <= pow10(b),
{
    lemma_pow10_add(a, (b - a) as nat);
    lemma_pow10_positive((b - a) as nat);
    assert(pow10(a) <= pow10(a) * pow10((b - a) as nat)) by (nonlinear_arith)
        requires
            pow10((b - a) as nat) >= 1,
    ;
}

/// Reads the digits `s[from..to]`, capped at `cap`; `None` if one is no digit.
fn read_digits(s: &Vec<char>, from: usize, to: usize, cap: u128) -> (r: Option<u128>)
    requires
        from <= to <= s.len(),
        cap < 0x1000000000000000000000000000000,
    ensures
        r is Some <==> all_digits(s@.subrange(from as int, to as int)),
        r matches Some(v) ==> v == if digits_value(s@.subrange(from as int, to as int)) < cap {
            digits_value(s@.subrange(from as int, to as int))
        } else {
            cap as nat
        },
{
    let mut acc: u128 = 0;
    let mut i: usize = from;
    while i < to
        invariant
            from <= i <= to <= s.len(),
            cap < 0x1000000000000000000000000000000,
            all_digits(s@.subrange(from as int, i as int)),
            acc <= cap,
            acc == if digits_value(s@.subrange(from as int, i as int)) < cap {
                digits_value(s@.subrange(from as int, i as int))
            } else {
                cap as nat
            },
        decreases to - i,
    {
        let c = s[i];
        let ghost prev = s@.subrange(from as int, i as int);
        assert(s@.subrange(from as int, i + 1) =~= prev.push(c));
        if !('0' <= c && c <= '9') {
            assert(!all_digits(s@.subrange(from as int, to as int))) by {
                assert(s@.subrange(from as int, to as int)[i - from] == c);
            }
            return None;
        }
        proof {
            lemma_digits_value_push(prev, c);
        }
        let d = (c as u32 - '0' as u32) as u128;
        if acc < cap {
            let next = acc * 10 + d;
            acc = if next < cap {
                next
            } else {
                cap
            };
        }
        i = i + 1;
    }
    Some(acc)
}

/// Index of the first '.' in `s[from..to]`, or `to`.
fn find_dot(s: &Vec<char>, from: usize, to: usize) -> (r: usize)
    requires
        from <= to <= s.len(),
    ensures
        from <= r <= to,
        r - from == dot_pos(s@.subrange(from as int, to as int)),
{
    let mut i: usize = from;
    while i < to && s[i] != '.'
        invariant
            from <= i <= to <= s.len(),
            forall|j: int| from <= j < i ==> s@[j] != '.',
        decreases to - i,
    {
        i = i + 1;
    }
    proof {
        let t = s@.subrange(from as int, to as int);
        assert forall|j: int| 0 <= j < i - from implies t[j] != '.' by {
            assert(t[j] == s@[from + j]);
        }
        lemma_dot_pos(t, i - from);
    }
    i
}

/// Index of the first 'e' or 'E' in `s[from..]`, or `s.len()`.
fn find_exp(s: &Vec<char>, from: usize) -> (r: usize)
    requires
        from <= s.len(),
    ensures
        from <= r <= s.len(),
        r - from == exp_pos(s@.skip(from as int)),
{
    let mut i: usize = from;
    while i < s.len() && s[i] != 'e' && s[i] != 'E'
        invariant
            from <= i <= s.len(),
            forall|j: int| from <= j < i ==> !is_exp_marker(#[trigger] s@[j]),
        decreases s.len() - i,
    {
        i = i + 1;
    }
    proof {
        let t = s@.skip(from as int);
        assert forall|j: int| 0 <= j < i - from implies !is_exp_marker(#[trigger] t[j]) by {
            assert(t[j] == s@[from + j]);
        }
        lemma_exp_pos(t, i - from);
    }
    i
}

/// Copies `s[from..to]`.
fn copy_range(s: &Vec<char>, from: usize, to: usize, out: &mut Vec<char>)
    requires
        from <= to <= s.len(),
    ensures
        final(out)@ == old(out)@ + s@.subrange(from as int, to as int),
{
    let ghost base = out@;
    let mut i: usize = from;
    while i < to
        invariant
            from <= i <= to <= s.len(),
            out@ == base + s@.subrange(from as int, i as int),
        decreases to - i,
    {
        assert(s@.subrange(from as int, i + 1) =~= s@.subrange(from as int, i as int).push(s@[i as int]));
        out.push(s[i]);
        i = i + 1;
    }
}

/// `shifted_value(d, p)` when it is below the limit.
fn shifted_micros(d: &Vec<char>, p: i128) -> (r: Option<u128>)
    requires
        all_digits(d@),
        p < 0x100000000000000000000000000000,
    ensures
        r is Some <==> shifted_value(d@, p as int) < parsed_limit(),
        r matches Some(v) ==> v == shifted_value(d@, p as int),
{
    if p <= 0 {
        return Some(0);
    }
    if p <= d.len() as i128 {
        assert(d@.subrange(0, p as int) =~= d@.take(p as int));
        let v = match read_digits(d, 0, p as usize, MICROS_LIMIT) {
            Some(v) => v,
            None => {
                assert(all_digits(d@.subrange(0, p as int))) by {
                    assert forall|j: int| 0 <= j < p implies is_digit(#[trigger] d@.subrange(0, p as int)[j]) by {
                        assert(d@.subrange(0, p as int)[j] == d@[j]);
                    }
                }
                return None;
            },
        };
        if v >= MICROS_LIMIT {
            return None;
        }
        return Some(v);
    }
    assert(d@.subrange(0, d.len() as int) =~= d@);
    let mut v = match read_digits(d, 0, d.len(), MICROS_LIMIT) {
        Some(v) => v,
        None => {
            return None;
        },
    };
    let ghost k = (p - d.len()) as nat;
    proof {
        lemma_pow10_mono(0, k);
        assert(pow10(0) == 1);
        assert(shifted_value(d@, p as int) == digits_value(d@) * pow10(k));
    }
    if v >= MICROS_LIMIT {
        assert(digits_value(d@) * pow10(k) >= digits_value(d@)) by (nonlinear_arith)
            requires
                pow10(k) >= 1,
        ;
        return None;
    }
    let steps: u128 = (p - d.len() as i128) as u128;
    let mut i: u128 = 0;
    while i < steps
        invariant
            steps == k,
            shifted_value(d@, p as int) == digits_value(d@) * pow10(k),
            i <= steps,
            v == digits_value(d@) * pow10(i as nat),
            v < MICROS_LIMIT,
        decreases steps - i,
    {
        if v == 0 {
            proof {
                lemma_pow10_positive(i as nat);
                assert(digits_value(d@) == 0) by (nonlinear_arith)
                    requires
                        v == digits_value(d@) * pow10(i as nat),
                        v == 0,
                        pow10(i as nat) >= 1,
                ;
                assert(digits_value(d@) * pow10(k) == 0) by (nonlinear_arith)
                    requires
                        digits_value(d@) == 0,
                ;
            }
            return Some(0);
        }
        proof {
            assert(pow10((i + 1) as nat) == 10 * pow10(i as nat));
            assert(v * 10 == digits_value(d@) * pow10((i + 1) as nat)) by (nonlinear_arith)
                requires
                    v == digits_value(d@) * pow10(i as nat),
                    pow10((i + 1) as nat) == 10 * pow10(i as nat),
            ;
        }
        v = v * 10;
        if v >= MICROS_LIMIT {
            proof {
                lemma_pow10_mono((i + 1) as nat, k);
                assert(digits_value(d@) * pow10(k) >= digits_value(d@) * pow10((i + 1) as nat))
                    by (nonlinear_arith)
                    requires
                        pow10(k) >= pow10((i + 1) as nat),
                ;
                assert(shifted_value(d@, p as int) >= v);
            }
            return None;
        }
        i = i + 1;
    }
    Some(v)
}

proof fn lemma_large_shift(d: Seq<char>, p: int)
    requires
        p - d.len() >= 19,
    ensures
        digits_value(d) == 0 ==> shifted_value(d, p) == 0,
        digits_value(d) > 0 ==> shifted_value(d, p) >= parsed_limit(),
{
    let k = (p - d.len()) as nat;
    lemma_pow10_mono(19, k);
    reveal_with_fuel(pow10, 20);
    assert(pow10(19) == 10000000000000000000nat);
    if digits_value(d) == 0 {
        assert(digits_value(d) * pow10(k) == 0) by (nonlinear_arith)
            requires
                digits_value(d) == 0,
        ;
    } else {
        assert(digits_value(d) * pow10(k) >= pow10(k)) by (nonlinear_arith)
            requires
                digits_value(d) >= 1,
        ;
    }
}

/// The magnitude in millionths of `s`, given where its parts stand: `None`
/// when its exponent is malformed or the magnitude does not fit.
#[verifier::rlimit(100)]
fn parse_magnitude(s: &Vec<char>, start: usize, ep: usize, int_len: usize, digits: &Vec<char>) -> (r:
    Option<u128>)
    requires
        start <= ep <= s.len(),
        unsigned_part(s@) == s@.skip(start as int),
        ep - start == exp_pos(unsigned_part(s@)),
        int_len == int_digits(s@).len(),
        digits@ == int_digits(s@) + frac_digits(s@),
        digits.len() <= s.len(),
        all_digits(digits@),
    ensures
        r is Some <==> (match exponent_part(s@) {
            Some(t) => exponent_digits(t).len() > 0 && all_digits(exponent_digits(t)),
            None => true,
        }) && magnitude_micros(s@) < parsed_limit(),
        r matches Some(v) ==> v == magnitude_micros(s@),
{
    let n = s.len();
    let int_len = int_len as i128;
    if ep == n {
        assert(exponent_part(s@) is None);
        return shifted_micros(digits, int_len + 6);
    }
    let es = ep + 1;
    let ds: usize = if es < n && (s[es] == '+' || s[es] == '-') {
        es + 1
    } else {
        es
    };
    let ghost t = exponent_part(s@).unwrap();
    assert(t =~= s@.subrange(es as int, n as int));
    assert(exponent_digits(t) =~= s@.subrange(ds as int, n as int));
    if ds == n {
        return None;
    }
    let cap: u128 = n as u128 + 100;
    let e = match read_digits(s, ds, n, cap) {
        Some(e) => e,
        None => {
            return None;
        },
    };
    let negative_exp = ds == es + 1 && s[es] == '-';
    assert(negative_exp == is_negative_text(t));
    if e < cap {
        let p: i128 = if negative_exp {
            int_len + 6 - e as i128
        } else {
            int_len + 6 + e as i128
        };
        assert(p == point_shift(s@));
        shifted_micros(digits, p)
    } else if negative_exp {
        assert(point_shift(s@) <= 0);
        Some(0)
    } else {
        assert(digits@.subrange(0, digits.len() as int) =~= digits@);
        let all = read_digits(digits, 0, digits.len(), 1);
        proof {
            lemma_large_shift(digits@, point_shift(s@));
        }
        match all {
            Some(0) => Some(0),
            _ => None,
        }
    }
}

/// Parses number text such as "-12.5" or "1.5e3" into millionths,
/// truncating digits beyond the sixth fractional place.
#[verifier::rlimit(60)]
pub fn parse_fixed(s: &Vec<char>) -> (r: Option<Fixed>)
    ensures
        r == parse_spec(s@),
        r matches Some(v) ==> -parsed_limit() < v.micros < parsed_limit(),
{
    let n = s.len();
    let start: usize = if n > 0 && (s[0] == '+' || s[0] == '-') {
        1
    } else {
        0
    };
    let ghost b = unsigned_part(s@);
    assert(b =~= s@.skip(start as int));
    let ep = find_exp(s, start);
    let ghost m = mantissa(s@);
    assert(m =~= s@.subrange(start as int, ep as int));
    let dot = find_dot(s, start, ep);
    let frac_start: usize = if dot < ep {
        dot + 1
    } else {
        ep
    };
    assert(int_digits(s@) =~= s@.subrange(start as int, dot as int));
    assert(frac_digits(s@) =~= s@.subrange(frac_start as int, ep as int));
    if read_digits(s, start, dot, 1).is_none() || read_digits(s, frac_start, ep, 1).is_none() {
        return None;
    }
    if (dot - start) + (ep - frac_start) == 0 {
        return None;
    }
    let mut digits: Vec<char> = Vec::new();
    copy_range(s, start, dot, &mut digits);
    copy_range(s, frac_start, ep, &mut digits);
    assert(digits@ =~= int_digits(s@) + frac_digits(s@));
    assert(all_digits(digits@)) by {
        assert forall|j: int| 0 <= j < digits@.len() implies is_digit(#[trigger] digits@[j]) by {
            if j < (dot - start) {
                assert(digits@[j] == int_digits(s@)[j]);
            } else {
                assert(digits@[j] == frac_digits(s@)[j - (dot - start)]);
            }
        }
    }
    let magnitude = match parse_magnitude(s, start, ep, dot - start, &digits) {
        Some(v) => v,
        None => {
            return None;
        },
    };
    assert(magnitude == magnitude_micros(s@));
    let micros = if start == 1 && s[0] == '-' {
        -(magnitude as i64)
    } else {
        magnitude as i64
    };
    Some(Fixed { micros })
}

/// `a / d` rounded to the nearest integer, halves away from zero.
pub open spec fn round_div(a: int, d: int) -> int
    recommends
        d > 0,
{
    if a >= 0 {
        (a + d / 2) / d
    } else {
        -((-a + d / 2) / d)
    }
}

/// The decimal digit for `d`, which is below ten.
pub open spec fn digit_char(d: nat) -> char {
    if d == 0 {
        '0'
    } else if d == 1 {
        '1'
    } else if d == 2 {
        '2'
    } else if d == 3 {
        '3'
    } else if d == 4 {
        '4'
    } else if d == 5 {
        '5'
    } else if d == 6 {
        '6'
    } else if d == 7 {
        '7'
    } else if d == 8 {
        '8'
    } else {
        '9'
    }
}

/// Decimal digits of `n`, without leading zeros ("0" for zero).
pub open spec fn nat_text(n: nat) -> Seq<char>
    decreases n,
{
    if n < 10 {
        seq![digit_char(n)]
    } else {
        nat_text(n / 10).push(digit_char(n % 10))
    }
}

/// A count of hundredths written with exactly two fractional digits, e.g. "-1.05".
pub open spec fn cents_text(c: int) -> Seq<char> {
    let m = if c < 0 {
        -c
    } else {
        c
    };
    let sign = if c < 0 {
        seq!['-']
    } else {
        Seq::empty()
    };
    sign + nat_text((m / 100) as nat) + seq!['.', digit_char(((m / 10) % 10) as nat), digit_char((m % 10) as nat)]
}

/// A number of millionths as text with two fractional digits.
pub open spec fn micros_text(micros: int, count: int) -> Seq<char> {
    cents_text(round_div(micros, count * 10000))
}

/// Rounds `a / d` to the nearest integer, halves away from zero.
pub fn round_div_exec(a: i128, d: i128) -> (r: i128)
    requires
        d > 0,
        a > i128::MIN,
    ensures
        r == round_div(a as int, d as int),
        r > i128::MIN,
{
    let m: i128 = if a >= 0 {
        a
    } else {
        -a
    };
    let q = m / d;
    let rem = m % d;
    let up: i128 = if rem >= d - d / 2 {
        1
    } else {
        0
    };
    proof {
        vstd::arithmetic::div_mod::lemma_fundamental_div_mod(m as int, d as int);
        vstd::arithmetic::div_mod::lemma_mod_pos_bound(m as int, d as int);
        assert(m == d * q + rem);
        let x = m + d / 2;
        let r2 = rem + d / 2 - up * d;
        assert(0 <= r2 < d);
        assert(x == (q + up) * d + r2) by (nonlinear_arith)
            requires
                m == d * q + rem,
                x == m + d / 2,
                r2 == rem + d / 2 - up * d,
        ;
        vstd::arithmetic::div_mod::lemma_fundamental_div_mod_converse_div(x, d as int, q + up, r2);
        assert(0 <= q <= m) by (nonlinear_arith)
            requires
                m >= 0,
                d >= 1,
                q == m / d,
        ;
        if up == 1 {
            assert(d >= 2);
            assert(q * 2 <= m) by (nonlinear_arith)
                requires
                    m == d * q + rem,
                    rem >= 0,
                    d >= 2,
                    q >= 0,
            ;
        }
    }
    let v = q + up;
    if a >= 0 {
        v
    } else {
        -v
    }
}

fn push_nat_text(n: u128, out: &mut Vec<char>)
    ensures
        final(out)@ == old(out)@ + nat_text(n as nat),
    decreases n,
{
    if n >= 10 {
        push_nat_text(n / 10, out);
    }
    let d = (n % 10) as u32;
    out.push(char_of_digit(d));
    proof {
        if n < 10 {
            assert(nat_text(n as nat) == seq![digit_char(n as nat)]);
        }
    }
    assert(final(out)@ =~= old(out)@ + nat_text(n as nat));
}

fn char_of_digit(d: u32) -> (c: char)
    requires
        d < 10,
    ensures
        c == digit_char(d as nat),
        is_digit(c),
{
    let c = if d == 0 {
        '0'
    } else if d == 1 {
        '1'
    } else if d == 2 {
        '2'
    } else if d == 3 {
        '3'
    } else if d == 4 {
        '4'
    } else if d == 5 {
        '5'
    } else if d == 6 {
        '6'
    } else if d == 7 {
        '7'
    } else if d == 8 {
        '8'
    } else {
        '9'
    };
    c
}

/// Writes hundredths as text with two fractional digits.
pub fn format_cents(c: i128) -> (r: Vec<char>)
    requires
        c > i128::MIN,
    ensures
        r@ == cents_text(c as int),
{
    let m: u128 = if c < 0 {
        (-c) as u128
    } else {
        c as u128
    };
    let mut out: Vec<char> = Vec::new();
    if c < 0 {
        out.push('-');
    }
    push_nat_text(m / 100, &mut out);
    out.push('.');
    out.push(char_of_digit(((m / 10) % 10) as u32));
    out.push(char_of_digit((m % 10) as u32));
    assert(out@ =~= cents_text(c as int));
    out
}

/// Decimal text holds no '{'.
pub proof fn lemma_nat_text_no_brace(n: nat)
    ensures
        forall|i: int| 0 <= i < nat_text(n).len() ==> #[trigger] nat_text(n)[i] != '{',
    decreases n,
{
    if n >= 10 {
        lemma_nat_text_no_brace(n / 10);
        let t = nat_text(n / 10).push(digit_char(n % 10));
        assert forall|i: int| 0 <= i < t.len() implies #[trigger] t[i] != '{' by {
            if i < t.len() - 1 {
                assert(t[i] == nat_text(n / 10)[i]);
            }
        }
    }
}

/// Hundredths written as text hold no '{'.
pub proof fn lemma_cents_text_no_brace(c: int)
    ensures
        forall|i: int| 0 <= i < cents_text(c).len() ==> #[trigger] cents_text(c)[i] != '{',
{
    let m = if c < 0 {
        -c
    } else {
        c
    };
    lemma_nat_text_no_brace((m / 100) as nat);
}

/// Rounding to the nearest integer keeps order.
pub proof fn lemma_round_div_mono(a: int, b: int, d: int)
    requires
        a <= b,
        d > 0,
    ensures
        round_div(a, d) <= round_div(b, d),
{
    if a >= 0 {
        vstd::arithmetic::div_mod::lemma_div_is_ordered(a + d / 2, b + d / 2, d);
    } else if b < 0 {
        vstd::arithmetic::div_mod::lemma_div_is_ordered(-b + d / 2, -a + d / 2, d);
    } else {
        vstd::arithmetic::div_mod::lemma_div_pos_is_pos(-a + d / 2, d);
        vstd::arithmetic::div_mod::lemma_div_pos_is_pos(b + d / 2, d);
    }
}

/// Scaling both the dividend and an even divisor by `n` does not change the
/// rounded quotient.
pub proof fn lemma_round_div_scale(m: int, n: int, d: int)
    requires
        n > 0,
        d > 0,
        d % 2 == 0,
    ensures
        round_div(n * m, n * d) == round_div(m, d),
{
    let x = if m >= 0 {
        m
    } else {
        -m
    };
    assert((n * d) / 2 == n * (d / 2)) by (nonlinear_arith)
        requires
            d % 2 == 0,
            n > 0,
    ;
    assert(n * x + n * (d / 2) == n * (x + d / 2)) by (nonlinear_arith);
    assert(n * m >= 0 <==> m >= 0) by (nonlinear_arith)
        requires
            n > 0,
    ;
    if m < 0 {
        assert(-(n * m) == n * x) by (nonlinear_arith)
            requires
                x == -m,
        ;
    }
    assert(x + d / 2 >= 0);
    vstd::arithmetic::div_mod::lemma_div_denominator(n * (x + d / 2), n, d);
    vstd::arithmetic::div_mod::lemma_div_multiples_vanish(x + d / 2, n);
}

} // verus!
