//! Recognition of the decimal floating-point literals that the standard
//! library's `f64` parser accepts: an optional sign, then `inf`, `infinity`
//! or `nan` in any case, or a decimal mantissa with an optional exponent.
use vstd::prelude::*;

verus! {

pub open spec fn is_digit(c: char) -> bool {
    '0' <= c <= '9'
}

pub open spec fn is_sign(c: char) -> bool {
    c == '+' || c == '-'
}

pub open spec fn is_exponent_mark(c: char) -> bool {
    c == 'e' || c == 'E'
}

pub open spec fn all_digits(s: Seq<char>) -> bool {
    forall|k: int| 0 <= k < s.len() ==> is_digit(#[trigger] s[k])
}

/// Digits with at most one decimal point and at least one digit:
/// `d+`, `d+.d*` or `d*.d+`.
pub open spec fn is_mantissa(m: Seq<char>) -> bool {
    &&& forall|k: int| 0 <= k < m.len() ==> is_digit(#[trigger] m[k]) || m[k] == '.'
    &&& forall|k1: int, k2: int|
        0 <= k1 < m.len() && 0 <= k2 < m.len() && #[trigger] m[k1] == '.' && #[trigger] m[k2]
            == '.' ==> k1 == k2
    &&& exists|k: int| 0 <= k < m.len() && is_digit(#[trigger] m[k])
}

/// What follows the exponent mark: an optional sign and at least one digit.
pub open spec fn is_exponent_digits(x: Seq<char>) -> bool {
    let d = if x.len() > 0 && is_sign(x[0]) {
        x.drop_first()
    } else {
        x
    };
    d.len() > 0 && all_digits(d)
}

pub open spec fn is_decimal(b: Seq<char>) -> bool {
    ||| is_mantissa(b)
    ||| exists|p: int|
        0 <= p < b.len() && is_exponent_mark(#[trigger] b[p]) && is_mantissa(b.take(p))
            && is_exponent_digits(b.skip(p + 1))
}

/// `w` spells the lower-case word `lit` with each letter in either case.
pub open spec fn eq_ignore_case(w: Seq<char>, lit: Seq<char>) -> bool {
    &&& w.len() == lit.len()
    &&& forall|k: int|
        0 <= k < w.len() ==> #[trigger] w[k] == lit[k] || (w[k] as u32) == (lit[k] as u32) - 32
}

pub open spec fn is_special_float(b: Seq<char>) -> bool {
    ||| eq_ignore_case(b, seq!['i', 'n', 'f'])
    ||| eq_ignore_case(b, seq!['i', 'n', 'f', 'i', 'n', 'i', 't', 'y'])
    ||| eq_ignore_case(b, seq!['n', 'a', 'n'])
}

pub open spec fn unsigned_part(w: Seq<char>) -> Seq<char> {
    if w.len() > 0 && is_sign(w[0]) {
        w.drop_first()
    } else {
        w
    }
}

/// `w` is a literal that parses as a floating-point number.
pub open spec fn is_float_literal(w: Seq<char>) -> bool {
    is_decimal(unsigned_part(w)) || is_special_float(unsigned_part(w))
}

fn is_ascii_digit(c: char) -> (r: bool)
    ensures
        r == is_digit(c),
{
    '0' <= c && c <= '9'
}

/// Whether `s[from..to]` is a mantissa.
fn check_mantissa(s: &[char], from: usize, to: usize) -> (r: bool)
    requires
        from <= to <= s@.len(),
    ensures
        r == is_mantissa(s@.subrange(from as int, to as int)),
{
    let ghost m = s@.subrange(from as int, to as int);
    let mut dots: usize = 0;
    let mut digits: usize = 0;
    let mut i = from;
    let ghost mut dot_at: int = 0;
    let ghost mut digit_at: int = 0;
    while i < to
        invariant
            from <= i <= to <= s@.len(),
            m == s@.subrange(from as int, to as int),
            dots <= 1,
            forall|k: int| 0 <= k < i - from ==> is_digit(#[trigger] m[k]) || m[k] == '.',
            dots == 0 ==> forall|k: int| 0 <= k < i - from ==> #[trigger] m[k] != '.',
            dots == 1 ==> 0 <= dot_at < i - from && m[dot_at] == '.' && forall|k: int|
                0 <= k < i - from && k != dot_at ==> #[trigger] m[k] != '.',
            digits == 0 ==> forall|k: int| 0 <= k < i - from ==> !is_digit(#[trigger] m[k]),
            digits > 0 ==> 0 <= digit_at < i - from && is_digit(m[digit_at]),
            digits <= i - from,
        decreases to - i,
    {
        let c = s[i];
        if c == '.' {
            if dots == 1 {
                proof {
                    assert(m[i - from] == '.');
                }
                return false;
            }
            dots = 1;
            proof {
                dot_at = i - from;
            }
        } else if is_ascii_digit(c) {
            digits = digits + 1;
            proof {
                digit_at = i - from;
            }
        } else {
            proof {
                assert(m[i - from] == c);
            }
            return false;
        }
        i = i + 1;
    }
    if digits == 0 {
        proof {
            assert forall|k: int| 0 <= k < m.len() implies !is_digit(#[trigger] m[k]) by {}
        }
        false
    } else {
        proof {
            assert(is_digit(m[digit_at]));
        }
        true
    }
}

/// Whether `s[from..to]` is an optional sign followed by at least one digit.
fn check_exponent_digits(s: &[char], from: usize, to: usize) -> (r: bool)
    requires
        from <= to <= s@.len(),
    ensures
        r == is_exponent_digits(s@.subrange(from as int, to as int)),
{
    let ghost x = s@.subrange(from as int, to as int);
    let mut start = from;
    if from < to && (s[from] == '+' || s[from] == '-') {
        start = from + 1;
    }
    let ghost d = s@.subrange(start as int, to as int);
    proof {
        assert(x.len() > 0 ==> x[0] == s@[from as int]);
        if x.len() > 0 && is_sign(x[0]) {
            assert(x.drop_first() =~= d);
        } else {
            assert(x =~= d);
        }
    }
    if start == to {
        return false;
    }
    let mut i = start;
    while i < to
        invariant
            start <= i <= to <= s@.len(),
            d == s@.subrange(start as int, to as int),
            d.len() > 0,
            is_exponent_digits(x) == all_digits(d),
            x == s@.subrange(from as int, to as int),
            forall|k: int| 0 <= k < i - start ==> is_digit(#[trigger] d[k]),
        decreases to - i,
    {
        if !is_ascii_digit(s[i]) {
            proof {
                assert(d[i - start] == s@[i as int]);
            }
            return false;
        }
        i = i + 1;
    }
    proof {
        assert(all_digits(d));
    }
    true
}

/// Whether `s[from..to]` spells `lit`, each letter in either case.
fn matches_ignore_case(s: &[char], from: usize, to: usize, lit: &[char]) -> (r: bool)
    requires
        from <= to <= s@.len(),
        forall|k: int| 0 <= k < lit@.len() ==> 'a' <= #[trigger] lit@[k] <= 'z',
    ensures
        r == eq_ignore_case(s@.subrange(from as int, to as int), lit@),
{
    let ghost w = s@.subrange(from as int, to as int);
    if to - from != lit.len() {
        return false;
    }
    let mut k: usize = 0;
    while k < lit.len()
        invariant
            from <= to <= s@.len(),
            to - from == lit@.len(),
            w == s@.subrange(from as int, to as int),
            0 <= k <= lit@.len(),
            forall|j: int| 0 <= j < lit@.len() ==> 'a' <= #[trigger] lit@[j] <= 'z',
            forall|j: int|
                0 <= j < k ==> #[trigger] w[j] == lit@[j] || (w[j] as u32) == (lit@[j] as u32) - 32,
        decreases lit@.len() - k,
    {
        let c = s[from + k];
        let l = lit[k];
        if c != l && (c as u32) != (l as u32) - 32 {
            proof {
                assert(w[k as int] == c);
            }
            return false;
        }
        k = k + 1;
    }
    true
}

/// Whether `s[from..to]` is a literal that parses as a floating-point number.
pub fn is_float_literal_at(s: &[char], from: usize, to: usize) -> (r: bool)
    requires
        from <= to <= s@.len(),
    ensures
        r == is_float_literal(s@.subrange(from as int, to as int)),
{
    let ghost w = s@.subrange(from as int, to as int);
    let mut start = from;
    if from < to && (s[from] == '+' || s[from] == '-') {
        start = from + 1;
    }
    let ghost b = s@.subrange(start as int, to as int);
    proof {
        assert(w.len() > 0 ==> w[0] == s@[from as int]);
        if w.len() > 0 && is_sign(w[0]) {
            assert(w.drop_first() =~= b);
        } else {
            assert(w =~= b);
        }
        assert(unsigned_part(w) == b);
    }
    let special = matches_ignore_case(s, start, to, &['i', 'n', 'f'])
        || matches_ignore_case(s, start, to, &['i', 'n', 'f', 'i', 'n', 'i', 't', 'y'])
        || matches_ignore_case(s, start, to, &['n', 'a', 'n']);
    if special {
        return true;
    }
    let mut p = start;
    while p < to && s[p] != 'e' && s[p] != 'E'
        invariant
            start <= p <= to <= s@.len(),
            b == s@.subrange(start as int, to as int),
            forall|k: int| 0 <= k < p - start ==> !is_exponent_mark(#[trigger] b[k]),
        decreases to - p,
    {
        p = p + 1;
    }
    if p == to {
        let r = check_mantissa(s, start, to);
        proof {
            assert(b =~= s@.subrange(start as int, to as int));
            if !r {
                assert forall|q: int|
                    0 <= q < b.len() && is_exponent_mark(#[trigger] b[q]) implies !(is_mantissa(b.take(q))
                        && is_exponent_digits(b.skip(q + 1))) by {}
            }
        }
        r
    } else {
        let m = check_mantissa(s, start, p);
        let e = check_exponent_digits(s, p + 1, to);
        proof {
            let q0 = p - start;
            assert(b.take(q0) =~= s@.subrange(start as int, p as int));
            assert(s@.subrange(p + 1, to as int) =~= b.skip(q0 + 1));
            assert(is_exponent_mark(b[q0]));
            assert(!is_mantissa(b)) by {
                assert(!is_digit(b[q0]) && b[q0] != '.');
            }
            if m && e {
                assert(is_decimal(b));
            } else {
                assert forall|q: int|
                    0 <= q < b.len() && is_exponent_mark(#[trigger] b[q]) implies !(is_mantissa(b.take(q))
                        && is_exponent_digits(b.skip(q + 1))) by {
                    if q > q0 {
                        assert(b.take(q)[q0] == b[q0]);
                        assert(!is_digit(b.take(q)[q0]) && b.take(q)[q0] != '.');
                    }
                }
            }
            assert(!is_special_float(b));
        }
        m && e
    }
}

} // verus!
