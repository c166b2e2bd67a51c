//! Exact decimal fixed-point numbers with four fractional digits.
//!
//! Float and duration values are carried as counts of ten-thousandths, the
//! precision at which the renderer displays them. Parsing accepts plain
//! decimal literals (an optional sign, digits, an optional fractional part);
//! fractional digits beyond the fourth are truncated, and literals whose
//! magnitude in units would not fit an `i64` are rejected.

use vstd::prelude::*;

verus! {

/// Number of fixed-point units per whole unit (four decimal digits).
pub const FIXED_SCALE: u64 = 10000;

/// Largest integer part a fixed-point number can carry: any parsed literal
/// whose magnitude in units would exceed `i64::MAX` is rejected.
pub const FIXED_MAX_INT_PART: u64 = 0x7fff_ffff_ffff_ffff / 10000;

/// A signed decimal number with exactly four fractional digits, stored as a
/// count of ten-thousandths. This is the carrier for float and duration
/// values: exact, so that sums and means can be stated and proved precisely.
#[derive(Clone, Copy, Debug, PartialEq, Eq, Structural)]
pub struct Fixed {
    /// The value in units of one ten-thousandth.
    pub units: i64,
}

/// Whether `c` is a decimal digit.
pub open spec fn is_digit(c: char) -> bool {
    48 <= c as int <= 57
}

/// Whether every character of `s` is a decimal digit.
pub open spec fn all_digits(s: Seq<char>) -> bool {
    forall|i: int| 0 <= i < s.len() ==> is_digit(#[trigger] s[i])
}

/// Whether the characters of `s` from `a` (inclusive) to `b` (exclusive)
/// are all decimal digits.
pub open spec fn digits_between(s: Seq<char>, a: int, b: int) -> bool {
    forall|m: int| a <= m < b ==> is_digit(#[trigger] s[m])
}

/// The two phrasings of "a stretch of digits" agree.
proof fn lemma_digits_between(s: Seq<char>, a: int, b: int)
    requires
        0 <= a <= b <= s.len(),
    ensures
        all_digits(s.subrange(a, b)) <==> digits_between(s, a, b),
{
    let sub = s.subrange(a, b);
    if digits_between(s, a, b) {
        assert forall|k: int| 0 <= k < sub.len() implies is_digit(#[trigger] sub[k]) by {
            assert(sub[k] == s[a + k]);
        }
    }
    if all_digits(sub) {
        assert forall|m: int| a <= m < b implies is_digit(#[trigger] s[m]) by {
            assert(sub[m - a] == s[m]);
        }
    }
}

/// The non-negative integer denoted by a sequence of decimal digits
/// (most significant first); the empty sequence denotes zero.
pub open spec fn digits_val(s: Seq<char>) -> int
    decreases s.len(),
{
    if s.len() == 0 {
        0
    } else {
        digits_val(s.drop_last()) * 10 + (s.last() as int - 48)
    }
}

/// What parsing a non-negative base-10 integer yields: the denoted value if
/// `s` is one or more decimal digits denoting at most `u32::MAX`, else
/// nothing.
pub open spec fn parse_u32_spec(s: Seq<char>) -> Option<u32> {
    if s.len() >= 1 && all_digits(s) && digits_val(s) <= u32::MAX {
        Some(digits_val(s) as u32)
    } else {
        None
    }
}

/// Index of the first `'.'` in `s`, or `s.len()` if there is none.
pub open spec fn find_dot(s: Seq<char>) -> int
    decreases s.len(),
{
    if s.len() == 0 {
        0
    } else if s[0] == '.' {
        0
    } else {
        1 + find_dot(s.drop_first())
    }
}

/// The fractional digits of a literal, as a count of ten-thousandths:
/// the first four digits, right-padded with zeros; further digits are
/// truncated.
pub open spec fn frac4_val(fp: Seq<char>) -> int {
    if fp.len() == 0 {
        0
    } else if fp.len() == 1 {
        digits_val(fp) * 1000
    } else if fp.len() == 2 {
        digits_val(fp) * 100
    } else if fp.len() == 3 {
        digits_val(fp) * 10
    } else {
        digits_val(fp.subrange(0, 4))
    }
}

/// Magnitude in ten-thousandths denoted by an unsigned decimal literal:
/// digits split at the first `'.'` into integer and fractional parts, each
/// all digits and together non-empty.
pub open spec fn fixed_body_val(body: Seq<char>) -> Option<int> {
    let p = find_dot(body);
    let ip = body.subrange(0, p);
    let fp = if p < body.len() {
        body.subrange(p + 1, body.len() as int)
    } else {
        Seq::<char>::empty()
    };
    if ip.len() + fp.len() >= 1 && all_digits(ip) && all_digits(fp) {
        Some(digits_val(ip) * (FIXED_SCALE as int) + frac4_val(fp))
    } else {
        None
    }
}

/// What parsing a signed decimal literal yields, in ten-thousandths:
/// an optional leading sign, then an unsigned literal whose magnitude in
/// units fits an `i64`.
pub open spec fn parse_fixed_spec(s: Seq<char>) -> Option<int> {
    let neg = s.len() > 0 && s[0] == '-';
    let body = if s.len() > 0 && (s[0] == '-' || s[0] == '+') {
        s.drop_first()
    } else {
        s
    };
    match fixed_body_val(body) {
        Some(mag) => if mag <= i64::MAX {
            Some(if neg { -mag } else { mag })
        } else {
            None
        },
        None => None,
    }
}

/// The character for one decimal digit.
pub open spec fn digit_char(d: int) -> char {
    if d == 0 {
        '0'
    } else if d == 1 {
        '1'
    } else if d == 2 {
        '2'
    } else if d == 3 {
        '3'
    } else if d == 4 {
        '4'
    } else if d == 5 {
        '5'
    } else if d == 6 {
        '6'
    } else if d == 7 {
        '7'
    } else {
        if d == 8 {
            '8'
        } else {
            '9'
        }
    }
}

/// The decimal rendering of a non-negative integer, without sign or
/// padding.
pub open spec fn dec_str(n: int) -> Seq<char>
    recommends
        n >= 0,
    decreases n,
{
    if n < 10 {
        seq![digit_char(n)]
    } else {
        dec_str(n / 10).push(digit_char(n % 10))
    }
}

/// Exactly four digits of a fractional part below one whole unit,
/// zero-padded on the left.
pub open spec fn frac4_str(f: int) -> Seq<char> {
    seq![
        digit_char(f / 1000),
        digit_char((f / 100) % 10),
        digit_char((f / 10) % 10),
        digit_char(f % 10),
    ]
}

/// The canonical rendering of a fixed-point value: optional minus sign,
/// decimal integer part, a dot, and exactly four fractional digits.
pub open spec fn fixed_str(units: int) -> Seq<char> {
    let mag = if units < 0 {
        -units
    } else {
        units
    };
    (if units < 0 {
        seq!['-']
    } else {
        Seq::<char>::empty()
    }) + dec_str(mag / (FIXED_SCALE as int)) + seq!['.'] + frac4_str(mag % (FIXED_SCALE as int))
}

/// The mean of a sum over `n` samples, rounded to the nearest integer with
/// ties away from zero.
pub open spec fn round_div(sum: int, n: int) -> int
    recommends
        n > 0,
{
    if sum >= 0 {
        (sum + n / 2) / n
    } else {
        -((-sum + n / 2) / n)
    }
}

/// A sequence of decimal digits denotes a non-negative value.
pub proof fn lemma_digits_val_nonneg(s: Seq<char>)
    requires
        all_digits(s),
    ensures
        digits_val(s) >= 0,
    decreases s.len(),
{
    if s.len() > 0 {
        assert(all_digits(s.drop_last())) by {
            assert(forall|i: int|
                0 <= i < s.drop_last().len() ==> #[trigger] s.drop_last()[i] == s[i]);
        }
        lemma_digits_val_nonneg(s.drop_last());
        assert(is_digit(s.last()));
    }
}

/// `k` digits denote less than `10^k`; stated here for up to four digits.
pub proof fn lemma_digits_val_small(s: Seq<char>)
    requires
        all_digits(s),
        s.len() <= 4,
    ensures
        digits_val(s) < 10000,
        s.len() <= 3 ==> digits_val(s) < 1000,
        s.len() <= 2 ==> digits_val(s) < 100,
        s.len() <= 1 ==> digits_val(s) < 10,
    decreases s.len(),
{
    if s.len() > 0 {
        assert(all_digits(s.drop_last())) by {
            assert(forall|i: int|
                0 <= i < s.drop_last().len() ==> #[trigger] s.drop_last()[i] == s[i]);
        }
        lemma_digits_val_small(s.drop_last());
        assert(is_digit(s.last()));
    }
}

/// The fractional contribution of a run of digits is between zero and one
/// whole unit.
pub proof fn lemma_frac4_range(fp: Seq<char>)
    requires
        all_digits(fp),
    ensures
        0 <= frac4_val(fp) < 10000,
{
    if fp.len() < 4 {
        lemma_digits_val_nonneg(fp);
        lemma_digits_val_small(fp);
    } else {
        let head = fp.subrange(0, 4);
        assert(all_digits(head)) by {
            assert(forall|i: int| 0 <= i < 4 ==> #[trigger] head[i] == fp[i]);
        }
        lemma_digits_val_nonneg(head);
        lemma_digits_val_small(head);
        if fp.len() == 4 {
            assert(head =~= fp);
        }
    }
}

/// Appending digits never shrinks the denoted value, so once a digit prefix
/// denotes more than some bound, the whole string does too.
pub proof fn lemma_digits_val_grows(s: Seq<char>, k: int)
    requires
        0 <= k <= s.len(),
        all_digits(s),
    ensures
        digits_val(s) >= digits_val(s.subrange(0, k)),
    decreases s.len() - k,
{
    if k < s.len() {
        assert(s.subrange(0, k + 1).drop_last() =~= s.subrange(0, k));
        assert(all_digits(s.subrange(0, k))) by {
            assert(forall|i: int|
                0 <= i < k ==> #[trigger] s.subrange(0, k)[i] == s[i]);
        }
        lemma_digits_val_nonneg(s.subrange(0, k));
        assert(is_digit(s[k]));
        assert(digits_val(s.subrange(0, k + 1)) >= digits_val(s.subrange(0, k)));
        lemma_digits_val_grows(s, k + 1);
    } else {
        assert(s.subrange(0, k) =~= s);
    }
}

/// Where the first `'.'` of `s` stands: no dot before it, and a dot at it
/// unless there is none at all.
pub proof fn lemma_find_dot(s: Seq<char>)
    ensures
        0 <= find_dot(s) <= s.len(),
        forall|m: int| 0 <= m < find_dot(s) ==> s[m] != '.',
        find_dot(s) < s.len() ==> s[find_dot(s)] == '.',
    decreases s.len(),
{
    if s.len() > 0 && s[0] != '.' {
        lemma_find_dot(s.drop_first());
        assert forall|m: int| 0 <= m < find_dot(s) implies s[m] != '.' by {
            if m >= 1 {
                assert(s.drop_first()[m - 1] == s[m]);
            }
        }
        if find_dot(s) < s.len() {
            assert(s[find_dot(s)] == s.drop_first()[find_dot(s) - 1]);
        }
    }
}

/// The first dot stands exactly where a dot follows a dot-free prefix.
pub proof fn lemma_find_dot_at(t: Seq<char>, j: int)
    requires
        0 <= j <= t.len(),
        forall|m: int| 0 <= m < j ==> #[trigger] t[m] != '.',
        j < t.len() ==> t[j] == '.',
    ensures
        find_dot(t) == j,
{
    lemma_find_dot(t);
    if find_dot(t) < j {
        assert(t[find_dot(t)] == '.');
    }
    if find_dot(t) > j {
        assert(t[j] != '.');
    }
}

/// In a literal whose characters up to `p` (past the sign) are digits, the
/// first dot of the body is no earlier than `p`.
proof fn lemma_dot_after_digits(s: Seq<char>, body: Seq<char>, i0: int, p: int)
    requires
        0 <= i0 <= p <= s.len(),
        body == s.subrange(i0, s.len() as int),
        digits_between(s, i0, p),
    ensures
        find_dot(body) >= p - i0,
{
    lemma_find_dot(body);
    let q = find_dot(body);
    if q < p - i0 {
        assert(body[q] == s[i0 + q]);
        assert(is_digit(s[i0 + q]));
        assert(body[q] == '.');
        assert(!is_digit('.'));
    }
}

/// A run of digits ended by a character that is neither a digit nor a dot
/// is not a well-formed literal body.
proof fn lemma_fixed_bad_char(s: Seq<char>, body: Seq<char>, i0: int, p: int)
    requires
        0 <= i0 <= p < s.len(),
        body == s.subrange(i0, s.len() as int),
        digits_between(s, i0, p),
        !is_digit(s[p]),
        s[p] != '.',
    ensures
        fixed_body_val(body) is None,
{
    lemma_find_dot(body);
    lemma_dot_after_digits(s, body, i0, p);
    let q = find_dot(body);
    if q == p - i0 && q < body.len() {
        assert(body[q] == s[p]);
        assert(false);
    }
    // So the bad character lies inside the integer part.
    let ip = body.subrange(0, q);
    assert(ip[p - i0] == s[p]);
    assert(!all_digits(ip));
}

/// A non-digit after the dot makes the fractional part malformed.
proof fn lemma_fixed_bad_frac(s: Seq<char>, body: Seq<char>, i0: int, p: int, j: int)
    requires
        0 <= i0 <= p < j < s.len(),
        body == s.subrange(i0, s.len() as int),
        find_dot(body) == p - i0,
        !is_digit(s[j]),
    ensures
        fixed_body_val(body) is None,
{
    let fp = body.subrange(p - i0 + 1, body.len() as int);
    assert(fp[j - p - 1] == s[j]);
    assert(!all_digits(fp));
}

/// Once the integer digits already denote more than the largest integer
/// part, no continuation of the literal denotes a magnitude that fits.
proof fn lemma_fixed_overflow(s: Seq<char>, body: Seq<char>, i0: int, i: int)
    requires
        0 <= i0 <= i <= s.len(),
        body == s.subrange(i0, s.len() as int),
        digits_between(s, i0, i),
        digits_val(s.subrange(i0, i)) > FIXED_MAX_INT_PART,
    ensures
        match fixed_body_val(body) {
            Some(mag) => mag > i64::MAX,
            None => true,
        },
{
    lemma_find_dot(body);
    lemma_dot_after_digits(s, body, i0, i);
    let q = find_dot(body);
    let ip = body.subrange(0, q);
    let fp = if q < body.len() {
        body.subrange(q + 1, body.len() as int)
    } else {
        Seq::<char>::empty()
    };
    if fixed_body_val(body) is Some {
        assert(ip.subrange(0, i - i0) =~= s.subrange(i0, i));
        lemma_digits_val_grows(ip, i - i0);
        lemma_frac4_range(fp);
        assert(digits_val(ip) >= FIXED_MAX_INT_PART + 1);
        assert(digits_val(ip) * (FIXED_SCALE as int) >= (FIXED_MAX_INT_PART + 1) * (
        FIXED_SCALE as int)) by (nonlinear_arith)
            requires
                digits_val(ip) >= FIXED_MAX_INT_PART + 1,
        ;
    }
}

/// A parsed literal's units always fit an `i64`'s magnitude.
pub proof fn lemma_parse_fixed_range(s: Seq<char>)
    ensures
        match parse_fixed_spec(s) {
            Some(u) => -0x7fff_ffff_ffff_ffff <= u <= 0x7fff_ffff_ffff_ffff,
            None => true,
        },
{
    let body = if s.len() > 0 && (s[0] == '-' || s[0] == '+') {
        s.drop_first()
    } else {
        s
    };
    if fixed_body_val(body) is Some {
        lemma_find_dot(body);
        let p = find_dot(body);
        let ip = body.subrange(0, p);
        let fp = if p < body.len() {
            body.subrange(p + 1, body.len() as int)
        } else {
            Seq::<char>::empty()
        };
        lemma_digits_val_nonneg(ip);
        lemma_frac4_range(fp);
    }
}

/// Parse one or more decimal digits as a `u32`. Anything else, including a
/// value above `u32::MAX`, yields `None`.
pub fn parse_u32(s: &str) -> (r: Option<u32>)
    ensures
        r == parse_u32_spec(s@),
{
    let n = s.unicode_len();
    if n == 0 {
        return None;
    }
    let mut acc: u64 = 0;
    let mut i: usize = 0;
    while i < n
        invariant
            0 < n == s@.len(),
            0 <= i <= n,
            digits_between(s@, 0, i as int),
            acc == digits_val(s@.subrange(0, i as int)),
            acc <= u32::MAX,
        decreases n - i,
    {
        let c = s.get_char(i);
        let d = c as u32;
        if d < 48 || d > 57 {
            proof {
                assert(!is_digit(s@[i as int]));
            }
            return None;
        }
        proof {
            assert(s@.subrange(0, i + 1).drop_last() =~= s@.subrange(0, i as int));
            assert(s@.subrange(0, i + 1).last() == s@[i as int]);
        }
        acc = acc * 10 + (d - 48) as u64;
        i = i + 1;
        if acc > u32::MAX as u64 {
            proof {
                if all_digits(s@) {
                    lemma_digits_val_grows(s@, i as int);
                }
            }
            return None;
        }
    }
    proof {
        assert(s@.subrange(0, n as int) =~= s@);
        lemma_digits_between(s@, 0, n as int);
    }
    Some(acc as u32)
}

/// Parse a signed decimal literal into fixed-point units. Fractional digits
/// beyond the fourth are truncated; a magnitude above `i64::MAX` units, or
/// anything but `[+|-] digits [. digits]` with at least one digit, yields
/// `None`.
#[verifier::rlimit(25)]
pub fn parse_fixed(s: &str) -> (r: Option<Fixed>)
    ensures
        match r {
            Some(f) => parse_fixed_spec(s@) == Some(f.units as int),
            None => parse_fixed_spec(s@) is None,
        },
{
    let n = s.unicode_len();
    let mut start: usize = 0;
    let mut neg = false;
    if n > 0 {
        let c0 = s.get_char(0);
        if c0 == '-' {
            neg = true;
            start = 1;
        } else if c0 == '+' {
            start = 1;
        }
    }
    let ghost i0 = start as int;
    let ghost body = s@.subrange(i0, n as int);
    proof {
        assert(body =~= (if s@.len() > 0 && (s@[0] == '-' || s@[0] == '+') {
            s@.drop_first()
        } else {
            s@
        }));
    }

    // Integer part: a run of digits.
    let mut i: usize = start;
    let mut ip: u64 = 0;
    loop
        invariant
            n == s@.len(),
            0 <= i0 <= i as int <= n,
            i0 == start as int,
            neg == (s@.len() > 0 && s@[0] == '-'),
            body == s@.subrange(i0, n as int),
            body == (if s@.len() > 0 && (s@[0] == '-' || s@[0] == '+') {
                s@.drop_first()
            } else {
                s@
            }),
            digits_between(s@, i0, i as int),
            ip == digits_val(s@.subrange(i0, i as int)),
            ip <= FIXED_MAX_INT_PART,
        ensures
            n == s@.len(),
            0 <= i0 <= i as int <= n,
            digits_between(s@, i0, i as int),
            ip == digits_val(s@.subrange(i0, i as int)),
            ip <= FIXED_MAX_INT_PART,
            i as int == n || !is_digit(s@[i as int]),
        decreases n - i,
    {
        if i >= n {
            break;
        }
        let c = s.get_char(i);
        let d = c as u32;
        if d < 48 || d > 57 {
            proof {
                assert(!is_digit(s@[i as int]));
            }
            break;
        }
        proof {
            assert(s@.subrange(i0, i + 1).drop_last() =~= s@.subrange(i0, i as int));
            assert(s@.subrange(i0, i + 1).last() == s@[i as int]);
        }
        ip = ip * 10 + (d - 48) as u64;
        i = i + 1;
        if ip > FIXED_MAX_INT_PART {
            proof {
                lemma_fixed_overflow(s@, body, i0, i as int);
            }
            return None;
        }
    }

    // `i` now stands at the end of the integer part.
    let ip_end = i;
    let ghost p = ip_end as int;
    let mut frac: u64 = 0;
    let mut fp_len: usize = 0;
    if i < n {
        let c = s.get_char(i);
        if c != '.' {
            proof {
                lemma_fixed_bad_char(s@, body, i0, p);
            }
            return None;
        }
        proof {
            lemma_find_dot(body);
            lemma_dot_after_digits(s@, body, i0, p);
            assert(find_dot(body) == p - i0) by {
                if find_dot(body) > p - i0 {
                    assert(body[p - i0] != '.');
                    assert(body[p - i0] == s@[p]);
                }
            }
        }
        // Fractional part: every remaining character must be a digit; only
        // the first four contribute to the value.
        i = i + 1;
        while i < n
            invariant
                n == s@.len(),
                0 <= i0 <= p < n,
                body == s@.subrange(i0, n as int),
                body == (if s@.len() > 0 && (s@[0] == '-' || s@[0] == '+') {
                    s@.drop_first()
                } else {
                    s@
                }),
                p + 1 <= i as int <= n,
                fp_len == i as int - (p + 1),
                digits_between(s@, p + 1, i as int),
                frac == digits_val(
                    s@.subrange(p + 1, p + 1 + (if fp_len <= 4 { fp_len as int } else { 4 })),
                ),
                frac < 10000,
                find_dot(body) == p - i0,
            decreases n - i,
        {
            let c = s.get_char(i);
            let d = c as u32;
            if d < 48 || d > 57 {
                proof {
                    assert(!is_digit(s@[i as int]));
                    lemma_fixed_bad_frac(s@, body, i0, p, i as int);
                }
                return None;
            }
            if fp_len < 4 {
                proof {
                    let t = s@.subrange(p + 1, p + 1 + (fp_len + 1) as int);
                    assert(t.drop_last() =~= s@.subrange(p + 1, p + 1 + fp_len as int));
                    assert(t.last() == s@[i as int]);
                    lemma_digits_between(s@, p + 1, i as int);
                    assert(all_digits(s@.subrange(p + 1, i as int)));
                    assert(digits_val(t) < 10000) by {
                        assert(all_digits(t)) by {
                            assert(forall|k: int|
                                0 <= k < t.len() ==> t[k] == #[trigger] s@[p + 1 + k]);
                        }
                        lemma_digits_val_small(t);
                    }
                }
                frac = frac * 10 + (d - 48) as u64;
            }
            fp_len = fp_len + 1;
            i = i + 1;
        }
    }

    // Lengths of the two digit runs.
    let ip_len = ip_end - start;
    proof {
        lemma_find_dot(body);
        lemma_dot_after_digits(s@, body, i0, p);
        if p < n {
            // A dot follows the integer digits (established above, restated
            // here so it is in scope for both remaining paths).
            assert(find_dot(body) == p - i0);
        } else {
            assert(find_dot(body) == p - i0) by {
                if find_dot(body) < p - i0 {
                    assert(body[find_dot(body)] == s@[i0 + find_dot(body)]);
                    assert(is_digit(s@[i0 + find_dot(body)]));
                    assert(!is_digit('.'));
                }
            }
        }
    }
    let ghost q = find_dot(body);
    let ghost ip_spec = body.subrange(0, q);
    let ghost fp_spec = if q < body.len() {
        body.subrange(q + 1, body.len() as int)
    } else {
        Seq::<char>::empty()
    };
    proof {
        assert(ip_spec =~= s@.subrange(i0, p));
        lemma_digits_between(s@, i0, p);
        assert(all_digits(ip_spec));
        if p < n {
            assert(fp_spec =~= s@.subrange(p + 1, n as int));
            lemma_digits_between(s@, p + 1, n as int);
            assert(all_digits(fp_spec));
            assert(fp_spec.len() == fp_len);
        } else {
            assert(fp_spec.len() == 0 && fp_len == 0);
        }
    }

    if ip_len == 0 && fp_len == 0 {
        proof {
            assert(ip_spec.len() + fp_spec.len() == 0);
        }
        return None;
    }

    // Scale a short fractional part up to four digits.
    let mult: u64 = if fp_len == 1 {
        1000
    } else if fp_len == 2 {
        100
    } else if fp_len == 3 {
        10
    } else {
        1
    };
    let frac4 = frac * mult;
    let mag = ip * FIXED_SCALE + frac4;

    proof {
        // The padded accumulator is exactly the fractional value.
        assert(frac4 == frac4_val(fp_spec)) by {
            if fp_len == 0 {
                assert(frac4_val(fp_spec) == 0);
                if p < n {
                    assert(frac == digits_val(s@.subrange(p + 1, p + 1)));
                    assert(s@.subrange(p + 1, p + 1) =~= Seq::<char>::empty());
                }
            } else if fp_len < 4 {
                assert(fp_spec =~= s@.subrange(p + 1, p + 1 + fp_len as int));
            } else {
                assert(fp_spec.subrange(0, 4) =~= s@.subrange(p + 1, p + 5));
            }
        }
        assert(fixed_body_val(body) == Some(mag as int));
    }

    if mag > 0x7fff_ffff_ffff_ffff {
        return None;
    }
    let units_mag = mag as i64;
    let units = if neg {
        -units_mag
    } else {
        units_mag
    };
    Some(Fixed { units })
}

/// The character of one decimal digit, as a one-character string slice.
fn digit_str(d: u64) -> (r: &'static str)
    requires
        d < 10,
    ensures
        r@ == seq![digit_char(d as int)],
{
    let r: &'static str = if d == 0 {
        "0"
    } else if d == 1 {
        "1"
    } else if d == 2 {
        "2"
    } else if d == 3 {
        "3"
    } else if d == 4 {
        "4"
    } else if d == 5 {
        "5"
    } else if d == 6 {
        "6"
    } else if d == 7 {
        "7"
    } else if d == 8 {
        "8"
    } else {
        "9"
    };
    proof {
        reveal_strlit("0");
        reveal_strlit("1");
        reveal_strlit("2");
        reveal_strlit("3");
        reveal_strlit("4");
        reveal_strlit("5");
        reveal_strlit("6");
        reveal_strlit("7");
        reveal_strlit("8");
        reveal_strlit("9");
        assert(r@ =~= seq![digit_char(d as int)]);
    }
    r
}

/// Render a non-negative integer in decimal.
pub fn u64_to_string(n: u64) -> (r: String)
    ensures
        r@ == dec_str(n as int),
    decreases n,
{
    if n < 10 {
        let mut s = String::new();
        s.append(digit_str(n));
        proof {
            assert(s@ =~= dec_str(n as int));
        }
        s
    } else {
        let mut s = u64_to_string(n / 10);
        s.append(digit_str(n % 10));
        proof {
            assert(s@ =~= dec_str(n as int));
        }
        s
    }
}

/// Append exactly four zero-padded fractional digits.
fn append_frac4(s: &mut String, f: u64)
    requires
        f < 10000,
    ensures
        final(s)@ == old(s)@ + frac4_str(f as int),
{
    s.append(digit_str(f / 1000));
    s.append(digit_str((f / 100) % 10));
    s.append(digit_str((f / 10) % 10));
    s.append(digit_str(f % 10));
    proof {
        assert(s@ =~= old(s)@ + frac4_str(f as int));
    }
}

/// Render a fixed-point value: optional minus sign, decimal integer part,
/// a dot, and exactly four fractional digits.
pub fn fixed_to_string(x: &Fixed) -> (r: String)
    ensures
        r@ == fixed_str(x.units as int),
{
    let wide = x.units as i128;
    let mag_wide: i128 = if wide < 0 {
        -wide
    } else {
        wide
    };
    let mag = mag_wide as u64;
    let mut s = String::new();
    if x.units < 0 {
        s.append("-");
        proof {
            reveal_strlit("-");
        }
    }
    let ipart = u64_to_string(mag / FIXED_SCALE);
    s.append(ipart.as_str());
    s.append(".");
    proof {
        reveal_strlit(".");
    }
    append_frac4(&mut s, mag % FIXED_SCALE);
    proof {
        assert(s@ =~= fixed_str(x.units as int));
    }
    s
}

/// Divide a sum of fixed-point units by a sample count, rounding to the
/// nearest unit with ties away from zero. The sum must be a sum of at most
/// `n` values that each fit an `i64`, so the mean fits an `i64` too.
pub fn round_div_units(sum: i128, n: u32) -> (r: i128)
    requires
        n > 0,
        -(0x7fff_ffff_ffff_ffff * (n as int)) <= sum <= 0x7fff_ffff_ffff_ffff * (n as int),
    ensures
        r == round_div(sum as int, n as int),
        -0x7fff_ffff_ffff_ffff <= r <= 0x7fff_ffff_ffff_ffff,
{
    let half = (n / 2) as u128;
    let nn = n as u128;
    let nonneg = sum >= 0;
    let mag: u128 = if nonneg {
        sum as u128
    } else {
        (-sum) as u128
    };
    proof {
        lemma_round_div_mag_bound(mag as int, n as int);
    }
    let q = (mag + half) / nn;
    if nonneg {
        q as i128
    } else {
        -(q as i128)
    }
}

/// The rounded mean of a sum of at most `n` values bounded by `i64::MAX`
/// is itself bounded by `i64::MAX`.
proof fn lemma_round_div_mag_bound(mag: int, n: int)
    requires
        n > 0,
        0 <= mag <= 0x7fff_ffff_ffff_ffff * n,
    ensures
        0 <= (mag + n / 2) / n <= 0x7fff_ffff_ffff_ffff,
{
    let top: int = 0x7fff_ffff_ffff_ffff;
    vstd::arithmetic::div_mod::lemma_div_pos_is_pos(mag + n / 2, n);
    vstd::arithmetic::div_mod::lemma_div_is_ordered(mag + n / 2, top * n + n / 2, n);
    vstd::arithmetic::div_mod::lemma_div_multiples_vanish_fancy(top, n / 2, n);
    assert(n * top == top * n) by (nonlinear_arith);
}

} // verus!

