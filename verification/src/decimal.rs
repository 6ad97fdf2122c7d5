use vstd::prelude::*;

use crate::number::{push_all, zeros};

verus! {

/// The index of the first occurrence of `b` in `s`.
pub open spec fn find_byte(s: Seq<u8>, b: u8) -> Option<int>
    decreases s.len(),
{
    if s.len() == 0 {
        None
    } else {
        match find_byte(s.drop_last(), b) {
            Some(i) => Some(i),
            None => if s.last() == b {
                Some(s.len() - 1)
            } else {
                None
            },
        }
    }
}

pub open spec fn is_digit(b: u8) -> bool {
    48 <= b <= 57
}

/// The value of a string of decimal digits.
pub open spec fn digits_value(s: Seq<u8>) -> nat
    decreases s.len(),
{
    if s.len() == 0 {
        0
    } else {
        digits_value(s.drop_last()) * 10 + (s.last() - 48) as nat
    }
}

/// The length of an optional leading sign.
pub open spec fn sign_len(s: Seq<u8>) -> int {
    if s.len() > 0 && (s[0] == 45 || s[0] == 43) {
        1
    } else {
        0
    }
}

pub open spec fn all_digits(s: Seq<u8>) -> bool {
    forall|i: int| 0 <= i < s.len() ==> is_digit(#[trigger] s[i])
}

/// The value of a decimal `i32` literal as `str::parse::<i32>` reads it: an optional
/// `+` or `-`, then at least one digit, and a value within the range of `i32`.
pub open spec fn parse_i32(s: Seq<u8>) -> Option<int> {
    let body = s.skip(sign_len(s));
    if body.len() == 0 || !all_digits(body) {
        None
    } else {
        let magnitude = digits_value(body) as int;
        let v = if s[0] == 45 {
            -magnitude
        } else {
            magnitude
        };
        if i32::MIN <= v <= i32::MAX {
            Some(v)
        } else {
            None
        }
    }
}

/// The digits of a mantissa without its decimal point, and how many follow the point.
pub open spec fn mantissa_digits(m: Seq<u8>) -> (Seq<u8>, nat) {
    match find_byte(m, 46u8) {
        Some(ip) => (m.take(ip) + m.skip(ip + 1), (m.len() - ip - 1) as nat),
        None => (m, 0nat),
    }
}

/// A run of at least one decimal digit.
pub open spec fn digit_run(s: Seq<u8>) -> bool {
    s.len() >= 1 && all_digits(s)
}

/// Whether a mantissa without its sign has the shape `D` or `D.D`.
pub open spec fn mantissa_shaped(m: Seq<u8>) -> bool {
    match find_byte(m, 46u8) {
        Some(ip) => digit_run(m.take(ip)) && digit_run(m.skip(ip + 1)),
        None => digit_run(m),
    }
}

/// Whether an exponent has the shape `[-]N`.
pub open spec fn exponent_shaped(x: Seq<u8>) -> bool {
    if x.len() > 0 && x[0] == 45 {
        digit_run(x.skip(1))
    } else {
        digit_run(x)
    }
}

/// The parts of a scientific literal `[-]D[.D]e[-]N`: whether it is negative, its
/// digits without the decimal point, how many of them follow the point, and the exponent;
/// `None` for text of another shape, or with an exponent outside `i32`.
pub open spec fn sci_parts(s: Seq<u8>) -> Option<(bool, Seq<u8>, nat, int)> {
    match find_byte(s, 101u8) {
        None => None,
        Some(ie) => if !exponent_shaped(s.skip(ie + 1)) {
            None
        } else {
            match parse_i32(s.skip(ie + 1)) {
                None => None,
                Some(e) => {
                    let mantissa = s.take(ie);
                    let negative = mantissa.len() > 0 && mantissa[0] == 45;
                    let m = if negative {
                        mantissa.skip(1)
                    } else {
                        mantissa
                    };
                    if !mantissa_shaped(m) {
                        None
                    } else {
                        let (d, f) = mantissa_digits(m);
                        Some((negative, d, f, e))
                    }
                },
            }
        },
    }
}

/// Whether `s[from..to]` is a run of at least one decimal digit.
fn is_digit_run(s: &[u8], from: usize, to: usize) -> (r: bool)
    requires
        from <= to <= s@.len(),
    ensures
        r == digit_run(s@.subrange(from as int, to as int)),
{
    let ghost t = s@.subrange(from as int, to as int);
    if from == to {
        return false;
    }
    let mut i = from;
    while i < to
        invariant
            from <= i <= to <= s@.len(),
            t == s@.subrange(from as int, to as int),
            forall|j: int| from <= j < i ==> is_digit(s@[j]),
        decreases to - i,
    {
        if s[i] < 48 || s[i] > 57 {
            assert(!is_digit(t[i - from]));
            return false;
        }
        i = i + 1;
    }
    assert forall|j: int| 0 <= j < t.len() implies is_digit(#[trigger] t[j]) by {
        assert(t[j] == s@[from + j]);
    }
    true
}

/// Whether `s[from..to]` has the shape `D` or `D.D`.
fn mantissa_is_shaped(s: &[u8], from: usize, to: usize) -> (r: bool)
    requires
        from <= to <= s@.len(),
    ensures
        r == mantissa_shaped(s@.subrange(from as int, to as int)),
{
    let ghost m = s@.subrange(from as int, to as int);
    proof {
        lemma_find_prefix(s@.skip(from as int), m, 46u8);
    }
    match find_from(s, from, 46u8) {
        Some(ip) => {
            if ip < to {
                assert(m.take(ip - from) =~= s@.subrange(from as int, ip as int));
                assert(m.skip(ip - from + 1) =~= s@.subrange(ip + 1, to as int));
                return is_digit_run(s, from, ip) && is_digit_run(s, ip + 1, to);
            }
        },
        None => {},
    }
    is_digit_run(s, from, to)
}

/// Whether `s[from..to]` has the shape `[-]N`.
fn exponent_is_shaped(s: &[u8], from: usize, to: usize) -> (r: bool)
    requires
        from <= to <= s@.len(),
    ensures
        r == exponent_shaped(s@.subrange(from as int, to as int)),
{
    let ghost x = s@.subrange(from as int, to as int);
    if from < to && s[from] == 45 {
        assert(x.skip(1) =~= s@.subrange(from + 1, to as int));
        is_digit_run(s, from + 1, to)
    } else {
        is_digit_run(s, from, to)
    }
}

/// Whether the position of the decimal point of `s` can be computed in `i32`.
pub open spec fn expansion_defined(s: Seq<u8>) -> bool {
    match sci_parts(s) {
        None => true,
        Some((neg, d, f, e)) => d.len() > i32::MAX || f > i32::MAX || i32::MIN < d.len() - f + e
            <= i32::MAX,
    }
}

/// Whether `s` is the text of a finite real that can be written: it has the shape
/// `[-]D[.D]e[-]N`, and the position of its decimal point is computable in `i32`.
pub open spec fn writable_real(s: Seq<u8>) -> bool {
    expansion_defined(s) && expand_spec(s) is Some
}

/// Whether the position of the decimal point of a scientific literal can be computed in `i32`.
pub fn scientific_is_computable(s: &[u8]) -> (r: bool)
    ensures
        r == expansion_defined(s@),
{
    let n = s.len();
    assert(s@.skip(0) =~= s@);
    let ie = match find_from(s, 0, 101u8) {
        Some(i) => i,
        None => {
            return true;
        },
    };
    assert(s@.subrange(ie + 1, s@.len() as int) =~= s@.skip(ie + 1));
    assert(ie < n);
    if !exponent_is_shaped(s, ie + 1, n) {
        return true;
    }
    let exponent = match parse_i32_range(s, ie + 1, n) {
        Some(e) => e,
        None => {
            return true;
        },
    };
    let ghost mantissa = s@.take(ie as int);
    let negative = ie > 0 && s[0] == 45;
    let m_start: usize = if negative {
        1
    } else {
        0
    };
    assert(s@.subrange(m_start as int, ie as int) =~= (if negative {
        mantissa.skip(1)
    } else {
        mantissa
    }));
    if !mantissa_is_shaped(s, m_start, ie) {
        return true;
    }
    let (digits, fractional) = split_mantissa(s, m_start, ie);
    if digits.len() > 2147483647 || fractional > 2147483647 {
        return true;
    }
    let point: i64 = digits.len() as i64 - fractional as i64 + exponent as i64;
    -2147483648 < point && point <= 2147483647
}

/// The digits `d` with the decimal point placed `point` digits from their start.
pub open spec fn place_point(d: Seq<u8>, point: int) -> Seq<u8> {
    if point <= 0 {
        seq![48u8, 46u8] + zeros((-point) as nat) + d
    } else if point < d.len() {
        d.take(point) + seq![46u8] + d.skip(point)
    } else {
        d + zeros((point - d.len()) as nat) + seq![46u8, 48u8]
    }
}

/// The plain decimal form of a scientific literal: no exponent, always a decimal point.
pub open spec fn expand_spec(s: Seq<u8>) -> Option<Seq<u8>> {
    match sci_parts(s) {
        None => None,
        Some((negative, d, f, e)) => if d.len() > i32::MAX || f > i32::MAX {
            None
        } else {
            let sign = if negative {
                seq![45u8]
            } else {
                Seq::<u8>::empty()
            };
            Some(sign + place_point(d, d.len() - f + e))
        },
    }
}

/// The first position of `b` in `s[from..]`, as an index of `s`.
fn find_from(s: &[u8], from: usize, b: u8) -> (r: Option<usize>)
    requires
        from <= s@.len(),
    ensures
        r is Some ==> from <= r.unwrap() < s@.len(),
        r is Some ==> find_byte(s@.skip(from as int), b) == Some(r.unwrap() - from),
        r is None ==> find_byte(s@.skip(from as int), b) is None,
{
    let mut i = from;
    while i < s.len()
        invariant
            from <= i <= s@.len(),
            forall|j: int| from <= j < i ==> s@[j] != b,
        decreases s@.len() - i,
    {
        if s[i] == b {
            proof {
                lemma_find_first(s@.skip(from as int), b, i - from);
            }
            return Some(i);
        }
        i = i + 1;
    }
    proof {
        lemma_find_none(s@.skip(from as int), b);
    }
    None
}

pub proof fn lemma_find_first(s: Seq<u8>, b: u8, i: int)
    requires
        0 <= i < s.len(),
        s[i] == b,
        forall|j: int| 0 <= j < i ==> s[j] != b,
    ensures
        find_byte(s, b) == Some(i),
    decreases s.len(),
{
    if i < s.len() - 1 {
        lemma_find_first(s.drop_last(), b, i);
    } else {
        lemma_find_none(s.drop_last(), b);
    }
}

pub proof fn lemma_find_none(s: Seq<u8>, b: u8)
    requires
        forall|j: int| 0 <= j < s.len() ==> s[j] != b,
    ensures
        find_byte(s, b) is None,
    decreases s.len(),
{
    if s.len() > 0 {
        lemma_find_none(s.drop_last(), b);
    }
}

/// Parses `s[from..to]` as `str::parse::<i32>` does.
fn parse_i32_range(s: &[u8], from: usize, to: usize) -> (r: Option<i32>)
    requires
        from <= to <= s@.len(),
    ensures
        r matches Some(v) ==> parse_i32(s@.subrange(from as int, to as int)) == Some(v as int),
        r is None ==> parse_i32(s@.subrange(from as int, to as int)) is None,
{
    let ghost t = s@.subrange(from as int, to as int);
    let start = if from < to && (s[from] == 45 || s[from] == 43) {
        from + 1
    } else {
        from
    };
    let ghost body = t.skip(sign_len(t));
    assert(body =~= s@.subrange(start as int, to as int));
    if start == to {
        return None;
    }
    // The magnitude, capped one past the largest magnitude an `i32` can hold.
    let limit: u64 = 2147483648;
    let mut value: u64 = 0;
    let mut capped = false;
    let mut i = start;
    while i < to
        invariant
            from <= start < to <= s@.len(),
            start <= i <= to,
            limit == 2147483648,
            t == s@.subrange(from as int, to as int),
            body == t.skip(sign_len(t)),
            body == s@.subrange(start as int, to as int),
            forall|j: int| start <= j < i ==> is_digit(s@[j]),
            !capped ==> value == digits_value(s@.subrange(start as int, i as int)),
            !capped ==> value <= limit,
            capped ==> digits_value(s@.subrange(start as int, i as int)) > limit,
        decreases to - i,
    {
        let c = s[i];
        if c < 48 || c > 57 {
            assert(!is_digit(body[i - start]));
            assert(!all_digits(body));
            return None;
        }
        let ghost prev = s@.subrange(start as int, i as int);
        assert(s@.subrange(start as int, i + 1) =~= prev.push(c));
        proof {
            lemma_digits_value_grows(prev, c);
        }
        if !capped {
            assert(value * 10 <= 21474836480) by (nonlinear_arith)
                requires
                    value <= limit,
                    limit == 2147483648,
            ;
            let next = value * 10 + (c - 48) as u64;
            if next > limit {
                capped = true;
            } else {
                value = next;
            }
        }
        i = i + 1;
    }
    assert(all_digits(body));
    if capped {
        return None;
    }
    if s[from] == 45 {
        if value > 2147483648 {
            return None;
        }
        let v: i64 = -(value as i64);
        Some(v as i32)
    } else {
        if value > 2147483647 {
            return None;
        }
        Some(value as i32)
    }
}

pub proof fn lemma_digits_value_grows(prev: Seq<u8>, c: u8)
    requires
        is_digit(c),
    ensures
        digits_value(prev.push(c)) == digits_value(prev) * 10 + (c - 48) as nat,
        digits_value(prev.push(c)) >= digits_value(prev),
{
    assert(prev.push(c).drop_last() =~= prev);
}

/// The digits of `s[from..to]` without its first decimal point, and how many follow it.
fn split_mantissa(s: &[u8], from: usize, to: usize) -> (r: (Vec<u8>, usize))
    requires
        from <= to <= s@.len(),
    ensures
        mantissa_digits(s@.subrange(from as int, to as int)) == (r.0@, r.1 as nat),
{
    let ghost m = s@.subrange(from as int, to as int);
    let mut digits: Vec<u8> = Vec::new();
    proof {
        lemma_find_prefix(s@.skip(from as int), m, 46u8);
    }
    match find_from(s, from, 46u8) {
        Some(ip) => {
            if ip < to {
                push_range(&mut digits, s, from, ip);
                push_range(&mut digits, s, ip + 1, to);
                assert(digits@ =~= m.take(ip - from) + m.skip(ip - from + 1));
                return (digits, to - ip - 1);
            }
        },
        None => {},
    }
    push_range(&mut digits, s, from, to);
    assert(digits@ =~= m);
    (digits, 0)
}

/// Appends the digits with the decimal point placed `point` digits from their start.
fn push_with_point(out: &mut Vec<u8>, digits: &[u8], point: i32)
    requires
        point > i32::MIN,
    ensures
        final(out)@ == old(out)@ + place_point(digits@, point as int),
{
    let ghost d = digits@;
    let ghost start = out@;
    if point <= 0 {
        out.push(48u8);
        out.push(46u8);
        push_zeros(out, (-point) as usize);
        push_all(out, digits);
        assert(out@ =~= start + place_point(d, point as int));
    } else {
        let p = point as usize;
        if p < digits.len() {
            push_range(out, digits, 0, p);
            out.push(46u8);
            push_range(out, digits, p, digits.len());
            assert(out@ =~= start + place_point(d, point as int));
        } else {
            push_all(out, digits);
            push_zeros(out, p - digits.len());
            out.push(46u8);
            out.push(48u8);
            assert(out@ =~= start + place_point(d, point as int));
        }
    }
}

/// Expands a scientific literal `[-]D[.D]e[-]N` into plain decimal notation that always
/// has a decimal point; `None` when the text does not have that shape.
pub fn expand_scientific_real(scientific: &[u8]) -> (r: Option<Vec<u8>>)
    requires
        expansion_defined(scientific@),
    ensures
        r matches Some(t) ==> expand_spec(scientific@) == Some(t@),
        r is None ==> expand_spec(scientific@) is None,
{
    let s = scientific;
    let n = s.len();
    assert(s@.skip(0) =~= s@);
    let ie = match find_from(s, 0, 101u8) {
        Some(i) => i,
        None => {
            return None;
        },
    };
    assert(s@.subrange(ie + 1, s@.len() as int) =~= s@.skip(ie + 1));
    assert(ie < n);
    if !exponent_is_shaped(s, ie + 1, n) {
        return None;
    }
    let exponent = match parse_i32_range(s, ie + 1, n) {
        Some(e) => e,
        None => {
            return None;
        },
    };
    let ghost mantissa = s@.take(ie as int);
    let negative = ie > 0 && s[0] == 45;
    let m_start: usize = if negative {
        1
    } else {
        0
    };
    assert(s@.subrange(m_start as int, ie as int) =~= (if negative {
        mantissa.skip(1)
    } else {
        mantissa
    }));
    if !mantissa_is_shaped(s, m_start, ie) {
        return None;
    }
    let (digits, fractional) = split_mantissa(s, m_start, ie);
    if digits.len() > 2147483647 || fractional > 2147483647 {
        return None;
    }
    let point: i32 = digits.len() as i32 - fractional as i32 + exponent;
    let mut token: Vec<u8> = Vec::new();
    if negative {
        token.push(45u8);
    }
    push_with_point(&mut token, digits.as_slice(), point);
    Some(token)
}

/// A first occurrence found in a longer sequence, restricted to a prefix of it.
proof fn lemma_find_prefix(long: Seq<u8>, short: Seq<u8>, b: u8)
    requires
        short.len() <= long.len(),
        forall|j: int| 0 <= j < short.len() ==> short[j] == long[j],
    ensures
        find_byte(long, b) is Some && find_byte(long, b).unwrap() < short.len() ==> find_byte(short, b) == find_byte(long, b),
        (find_byte(long, b) is None || find_byte(long, b).unwrap() >= short.len()) ==> find_byte(
            short,
            b,
        ) is None,
{
    lemma_find_bounds(long, b);
    match find_byte(long, b) {
        Some(i) => {
            if i < short.len() {
                lemma_find_first(short, b, i);
            } else {
                lemma_find_none(short, b);
            }
        },
        None => {
            lemma_find_none(short, b);
        },
    }
}

pub proof fn lemma_find_bounds(s: Seq<u8>, b: u8)
    ensures
        find_byte(s, b) matches Some(i) ==> 0 <= i < s.len() && s[i] == b && forall|j: int|
            0 <= j < i ==> s[j] != b,
        find_byte(s, b) is None ==> forall|j: int| 0 <= j < s.len() ==> s[j] != b,
    decreases s.len(),
{
    if s.len() > 0 {
        let p = s.drop_last();
        lemma_find_bounds(p, b);
        assert(forall|j: int| 0 <= j < p.len() ==> p[j] == s[j]);
    }
}

/// Appends `src[from..to]`.
fn push_range(out: &mut Vec<u8>, src: &[u8], from: usize, to: usize)
    requires
        from <= to <= src@.len(),
    ensures
        final(out)@ == old(out)@ + src@.subrange(from as int, to as int),
{
    let ghost start = out@;
    let mut i = from;
    while i < to
        invariant
            from <= i <= to <= src@.len(),
            out@ == start + src@.subrange(from as int, i as int),
        decreases to - i,
    {
        out.push(src[i]);
        i = i + 1;
        assert(out@ =~= start + src@.subrange(from as int, i as int));
    }
}

/// Appends `n` ASCII zeros.
fn push_zeros(out: &mut Vec<u8>, n: usize)
    ensures
        final(out)@ == old(out)@ + zeros(n as nat),
{
    let ghost start = out@;
    let mut i: usize = 0;
    while i < n
        invariant
            i <= n,
            out@ == start + zeros(i as nat),
        decreases n - i,
    {
        out.push(48u8);
        i = i + 1;
        assert(out@ =~= start + zeros(i as nat));
    }
}

/// Ten to the power `n`.
pub open spec fn pow10(n: nat) -> nat
    decreases n,
{
    if n == 0 {
        1
    } else {
        10 * pow10((n - 1) as nat)
    }
}

/// The decimal `x / 10^x_frac` equals `y * 10^y_exp / 10^y_frac`.
pub open spec fn same_decimal(x: nat, x_frac: nat, y: nat, y_frac: nat, y_exp: int) -> bool {
    let shift = x_frac + y_exp;
    if shift >= 0 {
        x * pow10(y_frac) == y * pow10(shift as nat)
    } else {
        x * pow10((y_frac - shift) as nat) == y
    }
}

proof fn lemma_pow10_add(a: nat, b: nat)
    ensures
        pow10(a + b) == pow10(a) * pow10(b),
    decreases b,
{
    if b == 0 {
        assert(pow10(a) * 1 == pow10(a));
    } else {
        let b1 = (b - 1) as nat;
        lemma_pow10_add(a, b1);
        let x = pow10(a);
        let y = pow10(b1);
        assert(a + b1 == (a + b) - 1);
        assert(pow10(a + b) == 10 * pow10(a + b1));
        assert(pow10(b) == 10 * y);
        assert(10 * (x * y) == x * (10 * y)) by (nonlinear_arith);
    }
}

/// Reading two strings of digits one after the other.
proof fn lemma_digits_value_concat(a: Seq<u8>, b: Seq<u8>)
    ensures
        digits_value(a + b) == digits_value(a) * pow10(b.len()) + digits_value(b),
    decreases b.len(),
{
    if b.len() == 0 {
        assert(a + b =~= a);
        assert(digits_value(a) * 1 == digits_value(a));
    } else {
        let b1 = b.drop_last();
        lemma_digits_value_concat(a, b1);
        assert((a + b).drop_last() =~= a + b1);
        assert((a + b).last() == b.last());
        let x = digits_value(a);
        let p = pow10(b1.len());
        let v = digits_value(b1);
        let c = (b.last() - 48) as nat;
        assert(digits_value(a + b) == digits_value(a + b1) * 10 + c);
        assert(digits_value(b) == v * 10 + c);
        assert(pow10(b.len()) == 10 * p);
        assert((x * p + v) * 10 + c == x * (10 * p) + (v * 10 + c)) by (nonlinear_arith);
    }
}

/// A string of zeros reads as 0.
proof fn lemma_zeros_value(n: nat)
    ensures
        digits_value(zeros(n)) == 0,
        all_digits(zeros(n)),
    decreases n,
{
    if n > 0 {
        lemma_zeros_value((n - 1) as nat);
        assert(zeros(n).drop_last() =~= zeros((n - 1) as nat));
    }
}

/// The digits before the decimal point when it is placed `point` digits from the start
/// of `d`.
pub open spec fn whole_digits(d: Seq<u8>, point: int) -> Seq<u8> {
    if point <= 0 {
        seq![48u8]
    } else if point < d.len() {
        d.take(point)
    } else {
        d + zeros((point - d.len()) as nat)
    }
}

/// The digits after the decimal point when it is placed `point` digits from the start of
/// `d`.
pub open spec fn fraction_digits(d: Seq<u8>, point: int) -> Seq<u8> {
    if point <= 0 {
        zeros((-point) as nat) + d
    } else if point < d.len() {
        d.skip(point)
    } else {
        seq![48u8]
    }
}

/// Placing the decimal point in digits `d`, for a literal with `f` fractional digits and
/// exponent `e`, gives digits around a point that keep the value.
proof fn lemma_place_point_value(d: Seq<u8>, f: nat, e: int)
    requires
        all_digits(d),
        d.len() >= 1,
    ensures
        ({
            let p = d.len() - f + e;
            let a = whole_digits(d, p);
            let b = fraction_digits(d, p);
            &&& place_point(d, p) == a + seq![46u8] + b
            &&& a.len() >= 1 && b.len() >= 1
            &&& all_digits(a) && all_digits(b)
            &&& same_decimal(digits_value(a + b), b.len(), digits_value(d), f, e)
        }),
{
    let p = d.len() - f + e;
    let a = whole_digits(d, p);
    let b = fraction_digits(d, p);
    if p <= 0 {
        let z = zeros((1 - p) as nat);
        assert(place_point(d, p) =~= a + seq![46u8] + b);
        assert(a + b =~= z + d);
        lemma_zeros_value((1 - p) as nat);
        lemma_zeros_value((-p) as nat);
        lemma_digits_value_concat(z, d);
        assert(digits_value(a + b) == digits_value(d));
        assert(b.len() + e == f);
        assert(all_digits(b));
        assert(all_digits(a));
    } else if p < d.len() {
        assert(place_point(d, p) =~= a + seq![46u8] + b);
        assert(a + b =~= d);
        assert(all_digits(a) && all_digits(b));
    } else {
        let n = (p - d.len()) as nat;
        assert(place_point(d, p) =~= a + seq![46u8] + b);
        lemma_zeros_value(n + 1);
        lemma_zeros_value(n);
        assert(a + b =~= d + zeros(n + 1));
        lemma_digits_value_concat(d, zeros(n + 1));
        let v = digits_value(d);
        assert(digits_value(a + b) == v * pow10(n + 1));
        lemma_pow10_add(n + 1, f);
        assert(1 + e == n + 1 + f);
        assert(v * pow10(n + 1) * pow10(f) == v * (pow10(n + 1) * pow10(f))) by (nonlinear_arith);
        assert(all_digits(a) && all_digits(b));
    }
}

/// The digits of a mantissa of the shape `D` or `D.D` are at least one digit.
proof fn lemma_shaped_digits(m: Seq<u8>)
    requires
        mantissa_shaped(m),
    ensures
        digit_run(mantissa_digits(m).0),
{
    match find_byte(m, 46u8) {
        Some(ip) => {
            let a = m.take(ip);
            let b = m.skip(ip + 1);
            assert forall|j: int| 0 <= j < (a + b).len() implies is_digit(#[trigger] (a + b)[j]) by {
                if j < a.len() {
                    assert(is_digit(a[j]));
                } else {
                    assert(is_digit(b[j - a.len()]));
                }
            }
        },
        None => {},
    }
}

/// The plain form of a scientific literal `[-]D[.D]e[-]N` is its sign, digits, a decimal
/// point and digits, and it has the same value: the digits
/// around the point, read with as many fractional digits as follow the point, equal the
/// mantissa's digits read with theirs, times ten to the exponent.
pub proof fn lemma_expansion_keeps_value(s: Seq<u8>)
    requires
        expand_spec(s) is Some,
    ensures
        ({
            let (negative, d, f, e) = sci_parts(s)->0;
            let sign = if negative {
                seq![45u8]
            } else {
                Seq::<u8>::empty()
            };
            let a = whole_digits(d, d.len() - f + e);
            let b = fraction_digits(d, d.len() - f + e);
            &&& expand_spec(s)->0 == sign + a + seq![46u8] + b
            &&& a.len() >= 1 && b.len() >= 1
            &&& all_digits(a) && all_digits(b)
            &&& same_decimal(digits_value(a + b), b.len(), digits_value(d), f, e)
        }),
{
    let (negative, d, f, e) = sci_parts(s)->0;
    let sign = if negative {
        seq![45u8]
    } else {
        Seq::<u8>::empty()
    };
    let ie = find_byte(s, 101u8)->0;
    let mantissa = s.take(ie);
    let m = if negative {
        mantissa.skip(1)
    } else {
        mantissa
    };
    lemma_shaped_digits(m);
    lemma_place_point_value(d, f, e);
    let p = d.len() - f + e;
    assert(expand_spec(s)->0 =~= sign + whole_digits(d, p) + seq![46u8] + fraction_digits(d, p));
}

/// Whether `s` is the text of a finite real that can be written.
pub fn is_writable_real(s: &[u8]) -> (r: bool)
    ensures
        r == writable_real(s@),
{
    scientific_is_computable(s) && expand_scientific_real(s).is_some()
}

} // verus!
