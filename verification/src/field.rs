//! The grammar of a numeric field.
//!
//! A field of the embedding file must be a finite decimal number: an
//! optional sign, a mantissa made of digits with at most one decimal point
//! (and at least one digit), and an optional exponent part `e`/`E` with an
//! optional sign and at least one digit.

use vstd::prelude::*;

verus! {

/// ASCII code of `0`.
pub const DIGIT_ZERO: u8 = 48;

/// ASCII code of `9`.
pub const DIGIT_NINE: u8 = 57;

/// ASCII code of `+`.
pub const PLUS: u8 = 43;

/// ASCII code of `-`.
pub const MINUS: u8 = 45;

/// ASCII code of `.`.
pub const DOT: u8 = 46;

/// ASCII code of `e`.
pub const LOWER_E: u8 = 101;

/// ASCII code of `E`.
pub const UPPER_E: u8 = 69;


/// The byte is an ASCII decimal digit.
pub open spec fn is_digit(b: u8) -> bool {
    DIGIT_ZERO <= b && b <= DIGIT_NINE
}

/// The byte is an ASCII sign character.
pub open spec fn is_sign(b: u8) -> bool {
    b == PLUS || b == MINUS
}

/// The byte marks the start of an exponent part.
pub open spec fn is_exp_marker(b: u8) -> bool {
    b == LOWER_E || b == UPPER_E
}

/// Every byte of `s` is a decimal digit.
pub open spec fn all_digits(s: Seq<u8>) -> bool {
    forall|i: int| 0 <= i < s.len() ==> is_digit(#[trigger] s[i])
}

/// Index of the first occurrence of `b` in `s`, or `s.len()` when absent.
pub open spec fn find_byte(s: Seq<u8>, b: u8) -> int
    decreases s.len(),
{
    if s.len() == 0 {
        0
    } else if s[0] == b {
        0
    } else {
        1 + find_byte(s.skip(1), b)
    }
}

/// Index of the first exponent marker in `s`, or `s.len()` when absent.
pub open spec fn find_exp_marker(s: Seq<u8>) -> int
    decreases s.len(),
{
    if s.len() == 0 {
        0
    } else if is_exp_marker(s[0]) {
        0
    } else {
        1 + find_exp_marker(s.skip(1))
    }
}

/// `find_byte` returns an index within bounds, before which `b` does not
/// occur, and which holds `b` unless `b` is absent altogether.
pub proof fn lemma_find_byte(s: Seq<u8>, b: u8)
    ensures
        0 <= find_byte(s, b) <= s.len(),
        forall|i: int| 0 <= i < find_byte(s, b) ==> s[i] != b,
        find_byte(s, b) < s.len() ==> s[find_byte(s, b)] == b,
    decreases s.len(),
{
    if s.len() == 0 {
    } else if s[0] == b {
    } else {
        lemma_find_byte(s.skip(1), b);
        let k = find_byte(s, b);
        assert forall|i: int| 0 <= i < k implies s[i] != b by {
            if i > 0 {
                assert(s.skip(1)[i - 1] == s[i]);
            }
        }
        if k < s.len() {
            assert(s.skip(1)[k - 1] == s[k]);
        }
    }
}

/// An index before which `b` does not occur and which holds `b` (or is the
/// end) is exactly what `find_byte` returns.
pub proof fn lemma_find_byte_is(s: Seq<u8>, b: u8, k: int)
    requires
        0 <= k <= s.len(),
        forall|i: int| 0 <= i < k ==> s[i] != b,
        k < s.len() ==> s[k] == b,
    ensures
        find_byte(s, b) == k,
    decreases s.len(),
{
    if k == 0 {
    } else {
        assert(s[0] != b);
        let t = s.skip(1);
        assert forall|i: int| 0 <= i < k - 1 implies t[i] != b by {
            assert(t[i] == s[i + 1]);
        }
        if k - 1 < t.len() {
            assert(t[k - 1] == s[k]);
        }
        lemma_find_byte_is(t, b, k - 1);
    }
}

/// The analogue of `lemma_find_byte_is` for exponent markers.
pub proof fn lemma_find_exp_marker_is(s: Seq<u8>, k: int)
    requires
        0 <= k <= s.len(),
        forall|i: int| 0 <= i < k ==> !is_exp_marker(#[trigger] s[i]),
        k < s.len() ==> is_exp_marker(s[k]),
    ensures
        find_exp_marker(s) == k,
    decreases s.len(),
{
    if k == 0 {
    } else {
        assert(!is_exp_marker(s[0]));
        let t = s.skip(1);
        assert forall|i: int| 0 <= i < k - 1 implies !is_exp_marker(#[trigger] t[i]) by {
            assert(t[i] == s[i + 1]);
        }
        if k - 1 < t.len() {
            assert(t[k - 1] == s[k]);
        }
        lemma_find_exp_marker_is(t, k - 1);
    }
}

/// The mantissa: digits with at most one decimal point and at least one
/// digit overall.
pub open spec fn is_mantissa(s: Seq<u8>) -> bool {
    let k = find_byte(s, DOT);
    if k == s.len() {
        s.len() > 0 && all_digits(s)
    } else {
        s.len() >= 2 && all_digits(s.take(k)) && all_digits(s.skip(k + 1))
    }
}

/// What follows an exponent marker: an optional sign and at least one digit.
pub open spec fn is_exp_tail(s: Seq<u8>) -> bool {
    if s.len() > 0 && is_sign(s[0]) {
        s.len() > 1 && all_digits(s.skip(1))
    } else {
        s.len() > 0 && all_digits(s)
    }
}

/// A number without a leading sign: a mantissa, optionally followed by an
/// exponent marker and an exponent tail.
pub open spec fn is_unsigned_numeric(s: Seq<u8>) -> bool {
    let k = find_exp_marker(s);
    if k == s.len() {
        is_mantissa(s)
    } else {
        is_mantissa(s.take(k)) && is_exp_tail(s.skip(k + 1))
    }
}

/// A numeric field: an optional sign followed by an unsigned number.
pub open spec fn is_numeric_field(s: Seq<u8>) -> bool {
    if s.len() > 0 && is_sign(s[0]) {
        is_unsigned_numeric(s.skip(1))
    } else {
        is_unsigned_numeric(s)
    }
}

/// Decides whether every byte of `s[from..to]` is a digit.
fn digits_range(s: &Vec<u8>, from: usize, to: usize) -> (r: bool)
    requires
        from <= to <= s.len(),
    ensures
        r == all_digits(s@.subrange(from as int, to as int)),
{
    let ghost sub = s@.subrange(from as int, to as int);
    let mut i: usize = from;
    while i < to
        invariant
            from <= i <= to <= s@.len(),
            sub == s@.subrange(from as int, to as int),
            forall|j: int| from <= j < i ==> is_digit(#[trigger] s@[j]),
        decreases to - i,
    {
        if s[i] < DIGIT_ZERO || s[i] > DIGIT_NINE {
            assert(sub[i - from] == s@[i as int]);
            return false;
        }
        i += 1;
    }
    assert forall|j: int| 0 <= j < sub.len() implies is_digit(#[trigger] sub[j]) by {
        assert(sub[j] == s@[from + j]);
    }
    true
}

/// Decides whether `s[from..to]` is a mantissa.
fn check_mantissa(s: &Vec<u8>, from: usize, to: usize) -> (r: bool)
    requires
        from <= to <= s.len(),
    ensures
        r == is_mantissa(s@.subrange(from as int, to as int)),
{
    let ghost sub = s@.subrange(from as int, to as int);
    let mut d: usize = from;
    while d < to && s[d] != DOT
        invariant
            from <= d <= to <= s@.len(),
            forall|j: int| from <= j < d ==> s@[j] != DOT,
        decreases to - d,
    {
        d += 1;
    }
    proof {
        assert forall|i: int| 0 <= i < d - from implies sub[i] != DOT by {
            assert(sub[i] == s@[from + i]);
        }
        if d < to {
            assert(sub[d - from] == s@[d as int]);
        }
        lemma_find_byte_is(sub, DOT, d - from);
    }
    if d == to {
        if to == from {
            return false;
        }
        digits_range(s, from, to)
    } else {
        if to - from < 2 {
            return false;
        }
        let r1 = digits_range(s, from, d);
        let r2 = digits_range(s, d + 1, to);
        proof {
            let k = d - from;
            assert(sub.take(k) =~= s@.subrange(from as int, d as int));
            assert(sub.skip(k + 1) =~= s@.subrange(d as int + 1, to as int));
        }
        r1 && r2
    }
}

/// Decides whether `s[from..to]` is an exponent tail.
fn check_exp_tail(s: &Vec<u8>, from: usize, to: usize) -> (r: bool)
    requires
        from <= to <= s.len(),
    ensures
        r == is_exp_tail(s@.subrange(from as int, to as int)),
{
    let ghost sub = s@.subrange(from as int, to as int);
    if from == to {
        return false;
    }
    assert(sub[0] == s@[from as int]);
    if s[from] == PLUS || s[from] == MINUS {
        if to - from < 2 {
            return false;
        }
        let r = digits_range(s, from + 1, to);
        proof {
            assert(sub.skip(1) =~= s@.subrange(from as int + 1, to as int));
        }
        r
    } else {
        digits_range(s, from, to)
    }
}

/// Decides whether `s[from..to]` is an unsigned number.
fn check_unsigned(s: &Vec<u8>, from: usize, to: usize) -> (r: bool)
    requires
        from <= to <= s.len(),
    ensures
        r == is_unsigned_numeric(s@.subrange(from as int, to as int)),
{
    let ghost sub = s@.subrange(from as int, to as int);
    let mut m: usize = from;
    while m < to && s[m] != LOWER_E && s[m] != UPPER_E
        invariant
            from <= m <= to <= s@.len(),
            forall|j: int| from <= j < m ==> !is_exp_marker(#[trigger] s@[j]),
        decreases to - m,
    {
        m += 1;
    }
    proof {
        assert forall|i: int| 0 <= i < m - from implies !is_exp_marker(#[trigger] sub[i]) by {
            assert(sub[i] == s@[from + i]);
        }
        if m < to {
            assert(sub[m - from] == s@[m as int]);
        }
        lemma_find_exp_marker_is(sub, m - from);
    }
    if m == to {
        check_mantissa(s, from, to)
    } else {
        let r1 = check_mantissa(s, from, m);
        let r2 = check_exp_tail(s, m + 1, to);
        proof {
            let k = m - from;
            assert(sub.take(k) =~= s@.subrange(from as int, m as int));
            assert(sub.skip(k + 1) =~= s@.subrange(m as int + 1, to as int));
        }
        r1 && r2
    }
}

/// Decides whether a whole field is numeric.
pub fn check_numeric_field(s: &Vec<u8>) -> (r: bool)
    ensures
        r == is_numeric_field(s@),
{
    let n = s.len();
    let start: usize = if n > 0 && (s[0] == PLUS || s[0] == MINUS) {
        1
    } else {
        0
    };
    let r = check_unsigned(s, start, n);
    proof {
        if start == 1 {
            assert(s@.subrange(1, n as int) =~= s@.skip(1));
        } else {
            assert(s@.subrange(0, n as int) =~= s@);
        }
    }
    r
}

} // verus!
