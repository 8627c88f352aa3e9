//! Exact fixed-point decimals: an unscaled `i128` with a scale `s`, standing
//! for `u / 10^s`.

use vstd::prelude::*;
use std::cmp::Ordering;

verus! {

/// `10^n` as a mathematical integer.
pub open spec fn pow10(n: nat) -> int
    decreases n,
{
    if n == 0 {
        1
    } else {
        10 * pow10((n - 1) as nat)
    }
}

/// `10^n` grows: it is at least 1, and each step multiplies by 10.
pub proof fn lemma_pow10_pos(n: nat)
    ensures
        pow10(n) >= 1,
    decreases n,
{
    if n > 0 {
        lemma_pow10_pos((n - 1) as nat);
    }
}

/// `10^(a+b) == 10^a * 10^b`.
pub proof fn lemma_pow10_add(a: nat, b: nat)
    ensures
        pow10(a + b) == pow10(a) * pow10(b),
    decreases b,
{
    if b > 0 {
        lemma_pow10_add(a, (b - 1) as nat);
        assert(pow10(a + b) == 10 * pow10((a + b - 1) as nat));
        assert(pow10(a) * pow10(b) == pow10(a) * (10 * pow10((b - 1) as nat)));
        assert(pow10(a) * (10 * pow10((b - 1) as nat)) == 10 * (pow10(a) * pow10((b - 1) as nat)))
            by (nonlinear_arith);
    }
}

/// The value fits the machine's signed 128-bit range.
pub open spec fn fits_i128(v: int) -> bool {
    i128::MIN <= v <= i128::MAX
}

/// Multiplies `u` by `10^k`; `None` exactly when the product leaves the
/// `i128` range.
pub fn scale_up(u: i128, k: u8) -> (r: Option<i128>)
    ensures
        r is Some <==> fits_i128(u * pow10(k as nat)),
        r matches Some(v) ==> v == u * pow10(k as nat),
{
    let mut acc: i128 = u;
    let mut i: u8 = 0;
    while i < k
        invariant
            i <= k,
            acc == u * pow10(i as nat),
        decreases k - i,
    {
        proof {
            assert(pow10((i + 1) as nat) == 10 * pow10(i as nat));
            assert(u * (10 * pow10(i as nat)) == 10 * (u * pow10(i as nat))) by (nonlinear_arith);
        }
        match acc.checked_mul(10) {
            Some(n) => {
                acc = n;
            },
            None => {
                proof {
                    lemma_overflow_persists(u as int, (i + 1) as nat, k as nat);
                }
                return None;
            },
        }
        i = i + 1;
    }
    Some(acc)
}

/// Once `u * 10^j` leaves the `i128` range, every larger power keeps it out.
pub proof fn lemma_overflow_persists(u: int, j: nat, k: nat)
    requires
        j <= k,
        !fits_i128(u * pow10(j)),
    ensures
        !fits_i128(u * pow10(k)),
    decreases k - j,
{
    if j < k {
        lemma_overflow_persists(u, j, (k - 1) as nat);
        let p = pow10((k - 1) as nat);
        lemma_pow10_pos((k - 1) as nat);
        assert(pow10(k) == 10 * p);
        assert(u * (10 * p) == 10 * (u * p)) by (nonlinear_arith);
    }
}


/// Sign of `a·10^-x − b·10^-y`: the numeric order of two decimals.
pub open spec fn dec_sign(a: i128, x: u8, b: i128, y: u8) -> int {
    let t: nat = if x >= y { x as nat } else { y as nat };
    let l = a * pow10((t - x) as nat);
    let r = b * pow10((t - y) as nat);
    if l < r {
        -1
    } else if l == r {
        0
    } else {
        1
    }
}

/// Numeric three-way comparison of two decimals as -1, 0 or 1, exact at
/// every scale (the smaller-scale side is scaled up; an overflow of that
/// side decides the order by its sign).
pub fn dec_order_sign(a: i128, x: u8, b: i128, y: u8) -> (r: i8)
    ensures
        r == dec_sign(a, x, b, y),
{
    if x >= y {
        proof {
            assert(pow10(0) == 1);
        }
        match scale_up(b, x - y) {
            Some(bs) => {
                if a < bs {
                    -1
                } else if a == bs {
                    0
                } else {
                    1
                }
            },
            None => {
                if b > 0 {
                    proof {
                        lemma_pow10_pos((x - y) as nat);
                        assert(b * pow10((x - y) as nat) >= b) by (nonlinear_arith)
                            requires b > 0, pow10((x - y) as nat) >= 1;
                    }
                    -1
                } else {
                    proof {
                        lemma_pow10_pos((x - y) as nat);
                        assert(b * pow10((x - y) as nat) <= 0) by (nonlinear_arith)
                            requires b <= 0, pow10((x - y) as nat) >= 1;
                    }
                    1
                }
            },
        }
    } else {
        proof {
            assert(pow10(0) == 1);
        }
        match scale_up(a, y - x) {
            Some(as_) => {
                if as_ < b {
                    -1
                } else if as_ == b {
                    0
                } else {
                    1
                }
            },
            None => {
                if a > 0 {
                    proof {
                        lemma_pow10_pos((y - x) as nat);
                        assert(a * pow10((y - x) as nat) >= a) by (nonlinear_arith)
                            requires a > 0, pow10((y - x) as nat) >= 1;
                    }
                    1
                } else {
                    proof {
                        lemma_pow10_pos((y - x) as nat);
                        assert(a * pow10((y - x) as nat) <= 0) by (nonlinear_arith)
                            requires a <= 0, pow10((y - x) as nat) >= 1;
                    }
                    -1
                }
            },
        }
    }
}

/// The numeric order of two decimals as an `Ordering`.
pub fn dec_cmp(a: i128, x: u8, b: i128, y: u8) -> (r: Ordering)
    ensures
        (r == Ordering::Less) == (dec_sign(a, x, b, y) < 0),
        (r == Ordering::Equal) == (dec_sign(a, x, b, y) == 0),
        (r == Ordering::Greater) == (dec_sign(a, x, b, y) > 0),
{
    let c = dec_order_sign(a, x, b, y);
    if c < 0 {
        Ordering::Less
    } else if c == 0 {
        Ordering::Equal
    } else {
        Ordering::Greater
    }
}


/// Magnitude of a signed value.
pub open spec fn abs_int(v: int) -> int {
    if v < 0 {
        -v
    } else {
        v
    }
}

/// Magnitude of an `i128` as a `u128` (total: `|i128::MIN|` fits).
pub fn abs_u128(u: i128) -> (m: u128)
    ensures
        m == abs_int(u as int),
{
    if u >= 0 {
        u as u128
    } else {
        ((-(u + 1)) as u128) + 1
    }
}

/// `10^38` is the largest power of ten in the `i128` range, and `10^39`
/// exceeds twice the range.
pub proof fn lemma_pow10_bounds()
    ensures
        pow10(38) == 100000000000000000000000000000000000000,
        pow10(39) == 1000000000000000000000000000000000000000,
        pow10(38) <= i128::MAX,
        2 * (i128::MAX + 1) < pow10(39),
{
    reveal_with_fuel(pow10, 40);
}

/// Powers of ten are monotone.
pub proof fn lemma_pow10_mono(a: nat, b: nat)
    requires
        a <= b,
    ensures
        pow10(a) <= pow10(b),
    decreases b - a,
{
    if a < b {
        lemma_pow10_mono(a, (b - 1) as nat);
        lemma_pow10_pos((b - 1) as nat);
    }
}

/// Division rounding half away from zero (`d > 0`).
pub open spec fn round_half_away(u: int, d: int) -> int {
    let m = abs_int(u);
    let q = if 2 * (m % d) >= d {
        m / d + 1
    } else {
        m / d
    };
    if u < 0 {
        -q
    } else {
        q
    }
}

/// The unscaled value of `u·10^-s` re-expressed at scale `t`: exact when
/// widening (`t >= s`), rounded half away from zero when narrowing.
pub open spec fn rescaled(u: int, s: nat, t: nat) -> int {
    if t >= s {
        u * pow10((t - s) as nat)
    } else {
        round_half_away(u, pow10((s - t) as nat))
    }
}

/// Rescale a decimal to scale `t`. Widening is exact and fails (`None`)
/// exactly when the result leaves the `i128` range; narrowing rounds half
/// away from zero and always succeeds.
pub fn dec_rescale(u: i128, s: u8, t: u8) -> (r: Option<(i128, u8)>)
    ensures
        r is Some <==> fits_i128(rescaled(u as int, s as nat, t as nat)),
        r matches Some((v, ts)) ==> v == rescaled(u as int, s as nat, t as nat) && ts == t,
{
    if t >= s {
        match scale_up(u, t - s) {
            Some(v) => Some((v, t)),
            None => None,
        }
    } else {
        let k: u8 = s - t;
        let m: u128 = abs_u128(u);
        proof {
            lemma_pow10_bounds();
            lemma_pow10_pos(k as nat);
        }
        if k > 38 {
            proof {
                lemma_pow10_mono(39, k as nat);
                let d = pow10(k as nat);
                assert(m < d);
                assert((m as int) % d == m as int) by (nonlinear_arith)
                    requires 0 <= m < d;
                assert((m as int) / d == 0) by (nonlinear_arith)
                    requires 0 <= m < d;
            }
            return Some((0, t));
        }
        proof {
            lemma_pow10_mono(k as nat, 38);
        }
        let d: i128 = match scale_up(1, k) {
            Some(v) => v,
            None => {
                proof {
                    assert(false);
                }
                return None;
            },
        };
        let du: u128 = d as u128;
        let q: u128 = m / du;
        let rem: u128 = m % du;
        let qq: u128 = if rem >= du - rem {
            q + 1
        } else {
            q
        };
        proof {
            assert(2 * (m as int % du as int) >= du as int <==> rem >= du - rem);
            assert(q <= m) by (nonlinear_arith)
                requires q == m / du, du >= 1;
            assert(m <= i128::MAX + 1);
            assert(q * du <= m) by (nonlinear_arith)
                requires q == m / du, du >= 1;
            assert(du >= 10) by {
                lemma_pow10_mono(1, k as nat);
                reveal_with_fuel(pow10, 2);
            }
            assert(q * 10 <= m) by (nonlinear_arith)
                requires q * du <= m, du >= 10, q >= 0;
        }
        let v: i128 = if u < 0 {
            -(qq as i128)
        } else {
            qq as i128
        };
        Some((v, t))
    }
}

/// The unscaled value is within precision `p`: `|u| < 10^p`.
pub open spec fn fits_precision(u: int, p: nat) -> bool {
    abs_int(u) < pow10(p)
}

/// Precision check for a declared `DECIMAL(p, s)` column.
pub fn dec_fits(u: i128, p: u8) -> (r: bool)
    ensures
        r == fits_precision(u as int, p as nat),
{
    let m: u128 = abs_u128(u);
    proof {
        lemma_pow10_bounds();
    }
    if p > 38 {
        proof {
            lemma_pow10_mono(39, p as nat);
        }
        return true;
    }
    proof {
        lemma_pow10_mono(p as nat, 38);
        lemma_pow10_pos(p as nat);
    }
    match scale_up(1, p) {
        Some(d) => m < d as u128,
        None => {
            proof {
                assert(false);
            }
            false
        },
    }
}

/// Canonical form of a decimal: trailing zeros of the unscaled value
/// stripped (scale 0 stays).
pub open spec fn is_normalized(u: int, s: nat) -> bool {
    s == 0 || u % 10 != 0
}

/// The canonical form: trailing zeros stripped while the scale allows.
pub open spec fn dec_norm(u: int, s: nat) -> (int, nat)
    decreases s,
{
    if s > 0 && u % 10 == 0 {
        dec_norm(u / 10, (s - 1) as nat)
    } else {
        (u, s)
    }
}

/// Strip trailing zeros: the same value at the smallest scale that holds
/// it exactly (`1.10` becomes `1.1`, `0.00` becomes `0`).
pub fn dec_normalize(u: i128, s: u8) -> (r: (i128, u8))
    ensures
        (r.0 as int, r.1 as nat) == dec_norm(u as int, s as nat),
        r.1 <= s,
        r.0 * pow10((s - r.1) as nat) == u,
        is_normalized(r.0 as int, r.1 as nat),
{
    let mut v: i128 = u;
    let mut t: u8 = s;
    proof {
        assert(pow10(0) == 1);
    }
    while t > 0 && v % 10 == 0
        invariant
            t <= s,
            v * pow10((s - t) as nat) == u,
            dec_norm(v as int, t as nat) == dec_norm(u as int, s as nat),
        decreases t,
    {
        let nv = v / 10;
        proof {
            assert(v == nv * 10) by (nonlinear_arith)
                requires v % 10 == 0, nv == v / 10;
            assert(dec_norm(v as int, t as nat) == dec_norm(nv as int, (t - 1) as nat));
            assert(pow10((s - (t - 1)) as nat) == 10 * pow10((s - t) as nat));
            assert(nv * (10 * pow10((s - t) as nat)) == (nv * 10) * pow10((s - t) as nat))
                by (nonlinear_arith);
        }
        v = nv;
        t = t - 1;
    }
    (v, t)
}


/// An ASCII decimal digit.
pub open spec fn is_digit(c: char) -> bool {
    '0' <= c && c <= '9'
}

/// The numeric value of a digit character.
pub open spec fn digit_val(c: char) -> int {
    c as int - '0' as int
}

/// Every character is a decimal digit.
pub open spec fn all_digits(s: Seq<char>) -> bool {
    forall|i: int| 0 <= i < s.len() ==> is_digit(#[trigger] s[i])
}

/// The integer a digit string spells, most significant digit first.
pub open spec fn digits_value(s: Seq<char>) -> int
    decreases s.len(),
{
    if s.len() == 0 {
        0
    } else {
        digits_value(s.drop_last()) * 10 + digit_val(s.last())
    }
}

/// Position of the first `.` in `s`, if any.
pub open spec fn find_point(s: Seq<char>) -> Option<int> {
    if exists|i: int| 0 <= i < s.len() && s[i] == '.' {
        Some(choose|i: int| 0 <= i < s.len() && s[i] == '.' && forall|j: int| 0 <= j < i ==> s[j] != '.')
    } else {
        None
    }
}

/// The decimal text grammar: an optional sign (`-` or `+`), one or more
/// digits, and optionally a `.` followed by one or more digits. No
/// exponents, no blanks. The result is (signed unscaled value, scale =
/// number of fraction digits).
pub open spec fn parse_decimal(txt: Seq<char>) -> Option<(int, nat)> {
    let signed = txt.len() > 0 && (txt[0] == '-' || txt[0] == '+');
    let neg = txt.len() > 0 && txt[0] == '-';
    let body = if signed { txt.drop_first() } else { txt };
    let (int_part, frac) = match find_point(body) {
        Some(i) => (body.subrange(0, i), body.subrange(i + 1, body.len() as int)),
        None => (body, Seq::<char>::empty()),
    };
    let well_formed = int_part.len() > 0 && all_digits(int_part) && all_digits(frac)
        && (find_point(body) is Some ==> frac.len() > 0);
    if well_formed {
        let v = digits_value(int_part + frac);
        Some((if neg { -v } else { v }, frac.len()))
    } else {
        None
    }
}

/// What a successful parse must also satisfy to be representable: the
/// value fits `i128` and the scale fits `u8`.
pub open spec fn parse_representable(txt: Seq<char>) -> bool {
    match parse_decimal(txt) {
        Some((v, sc)) => fits_i128(v) && sc <= 255,
        None => false,
    }
}


/// Appending one digit: `dv(s·c) == 10·dv(s) + c`.
pub proof fn lemma_digits_value_step(s: Seq<char>, k: int)
    requires
        0 <= k < s.len(),
    ensures
        digits_value(s.subrange(0, k + 1)) == digits_value(s.subrange(0, k)) * 10 + digit_val(s[k]),
{
    assert(s.subrange(0, k + 1).drop_last() =~= s.subrange(0, k));
}

/// A digit string spells a non-negative number.
pub proof fn lemma_digits_value_nonneg(s: Seq<char>)
    requires
        all_digits(s),
    ensures
        digits_value(s) >= 0,
    decreases s.len(),
{
    if s.len() > 0 {
        assert(all_digits(s.drop_last()));
        assert(is_digit(s[s.len() - 1]));
        lemma_digits_value_nonneg(s.drop_last());
    }
}

/// Digit prefixes never spell more than the whole string.
pub proof fn lemma_digits_value_prefix(s: Seq<char>, k: int)
    requires
        all_digits(s),
        0 <= k <= s.len(),
    ensures
        digits_value(s.subrange(0, k)) <= digits_value(s),
    decreases s.len() - k,
{
    if k < s.len() {
        lemma_digits_value_prefix(s, k + 1);
        lemma_digits_value_step(s, k);
        assert(all_digits(s.subrange(0, k)));
        lemma_digits_value_nonneg(s.subrange(0, k));
        assert(is_digit(s[k]));
    } else {
        assert(s.subrange(0, k) =~= s);
    }
}

/// `dv(a ++ b) == dv(a)·10^|b| + dv(b)`.
pub proof fn lemma_digits_value_concat(a: Seq<char>, b: Seq<char>)
    ensures
        digits_value(a + b) == digits_value(a) * pow10(b.len()) + digits_value(b),
    decreases b.len(),
{
    if b.len() == 0 {
        assert(a + b =~= a);
    } else {
        let b2 = b.drop_last();
        lemma_digits_value_concat(a, b2);
        assert((a + b).drop_last() =~= a + b2);
        assert((a + b).last() == b.last());
        assert(pow10(b.len()) == 10 * pow10(b2.len()));
        let x = digits_value(a);
        let p = pow10(b2.len());
        assert((x * p + digits_value(b2)) * 10 + digit_val(b.last()) == x * (10 * p) + (
        digits_value(b2) * 10 + digit_val(b.last()))) by (nonlinear_arith);
    }
}

/// Index of the first `.` at or after `start` (the length when none).
fn point_index(txt: &str, start: usize) -> (p: usize)
    requires
        start <= txt@.len(),
    ensures
        start <= p <= txt@.len(),
        p < txt@.len() ==> txt@[p as int] == '.',
        forall|j: int| start <= j < p ==> txt@[j] != '.',
{
    let n = txt.unicode_len();
    let mut p: usize = start;
    while p < n && txt.get_char(p) != '.'
        invariant
            start <= p <= n,
            n == txt@.len(),
            forall|j: int| start <= j < p ==> txt@[j] != '.',
        decreases n - p,
    {
        p = p + 1;
    }
    p
}

/// Whether every character in `txt[lo..hi]` is a digit.
fn digits_between(txt: &str, lo: usize, hi: usize) -> (b: bool)
    requires
        lo <= hi <= txt@.len(),
    ensures
        b == all_digits(txt@.subrange(lo as int, hi as int)),
{
    let mut j: usize = lo;
    while j < hi
        invariant
            lo <= j <= hi,
            hi <= txt@.len(),
            forall|i: int| lo <= i < j ==> is_digit(#[trigger] txt@[i]),
        decreases hi - j,
    {
        let c = txt.get_char(j);
        if !('0' <= c && c <= '9') {
            proof {
                assert(txt@.subrange(lo as int, hi as int)[j - lo] == c);
            }
            return false;
        }
        j = j + 1;
    }
    proof {
        assert forall|i: int| 0 <= i < hi - lo implies is_digit(#[trigger] txt@.subrange(lo as int, hi as int)[i]) by {
            assert(txt@.subrange(lo as int, hi as int)[i] == txt@[i + lo]);
        }
    }
    true
}

/// Extend `acc0` by the digits of `txt[lo..hi]`; `None` exactly when the
/// result exceeds `limit`.
fn digits_accumulate(txt: &str, lo: usize, hi: usize, acc0: u128, limit: u128) -> (r: Option<u128>)
    requires
        lo <= hi <= txt@.len(),
        all_digits(txt@.subrange(lo as int, hi as int)),
        acc0 <= limit,
    ensures
        r is Some <==> acc0 * pow10((hi - lo) as nat) + digits_value(txt@.subrange(lo as int, hi as int)) <= limit,
        r matches Some(v) ==> v == acc0 * pow10((hi - lo) as nat) + digits_value(txt@.subrange(lo as int, hi as int)),
{
    let ghost t = txt@;
    let ghost whole = t.subrange(lo as int, hi as int);
    let ghost fin = acc0 * pow10((hi - lo) as nat) + digits_value(whole);
    let mut acc: u128 = acc0;
    let mut i: usize = lo;
    proof {
        assert(t.subrange(lo as int, lo as int) =~= Seq::<char>::empty());
        assert(pow10(0) == 1);
    }
    while i < hi
        invariant
            lo <= i <= hi,
            hi <= t.len(),
            t == txt@,
            whole == t.subrange(lo as int, hi as int),
            all_digits(whole),
            fin == acc0 * pow10((hi - lo) as nat) + digits_value(whole),
            acc == acc0 * pow10((i - lo) as nat) + digits_value(t.subrange(lo as int, i as int)),
            acc <= limit,
        decreases hi - i,
    {
        let ghost pre = t.subrange(lo as int, i as int);
        let ghost rest = t.subrange(i as int, hi as int);
        proof {
            assert(whole =~= pre + rest);
            lemma_digits_value_concat(pre, rest);
            lemma_pow10_add((i - lo) as nat, (hi - i) as nat);
            assert(fin == acc * pow10((hi - i) as nat) + digits_value(rest)) by (nonlinear_arith)
                requires
                    fin == acc0 * pow10((hi - lo) as nat) + digits_value(whole),
                    digits_value(whole) == digits_value(pre) * pow10(rest.len()) + digits_value(rest),
                    rest.len() == hi - i,
                    pow10((hi - lo) as nat) == pow10((i - lo) as nat) * pow10((hi - i) as nat),
                    acc == acc0 * pow10((i - lo) as nat) + digits_value(pre);
            assert(whole[i - lo] == t[i as int]);
            assert(is_digit(t[i as int]));
        }
        let c = txt.get_char(i);
        let d: u128 = (c as u32 - '0' as u32) as u128;
        let ghost rest2 = t.subrange(i + 1, hi as int);
        proof {
            assert(rest =~= seq![c] + rest2);
            lemma_digits_value_concat(seq![c], rest2);
            assert(seq![c].drop_last() =~= Seq::<char>::empty());
            assert(digits_value(Seq::<char>::empty()) == 0);
            assert(seq![c].last() == c);
            assert(digits_value(seq![c]) == digit_val(c));
            assert(digit_val(c) == d);
            assert(pow10((hi - i) as nat) == 10 * pow10((hi - i - 1) as nat));
            lemma_pow10_pos((hi - i - 1) as nat);
            assert(all_digits(rest2)) by {
                assert forall|m: int| 0 <= m < rest2.len() implies is_digit(#[trigger] rest2[m]) by {
                    assert(rest2[m] == whole[m + i + 1 - lo]);
                }
            }
            lemma_digits_value_nonneg(rest2);
            assert(fin == (acc * 10 + d) * pow10((hi - i - 1) as nat) + digits_value(rest2)) by (nonlinear_arith)
                requires
                    fin == acc * pow10((hi - i) as nat) + digits_value(rest),
                    digits_value(rest) == d * pow10((hi - i - 1) as nat) + digits_value(rest2),
                    pow10((hi - i) as nat) == 10 * pow10((hi - i - 1) as nat);
        }
        if limit < d || acc > (limit - d) / 10 {
            proof {
                assert(acc * 10 + d > limit) by (nonlinear_arith)
                    requires limit < d || acc > (limit - d) / 10, d <= 9, acc >= 0;
                assert((acc * 10 + d) * pow10((hi - i - 1) as nat) >= acc * 10 + d) by (nonlinear_arith)
                    requires pow10((hi - i - 1) as nat) >= 1, acc >= 0, d >= 0;
            }
            return None;
        }
        proof {
            assert(acc * 10 + d <= limit) by (nonlinear_arith)
                requires acc <= (limit - d) / 10, d <= limit;
            lemma_digits_value_step(t.subrange(lo as int, hi as int), (i - lo) as int);
            assert(t.subrange(lo as int, hi as int).subrange(0, i + 1 - lo) =~= t.subrange(lo as int, i + 1));
            assert(t.subrange(lo as int, hi as int).subrange(0, i - lo) =~= pre);
            assert(pow10((i + 1 - lo) as nat) == 10 * pow10((i - lo) as nat));
            assert(acc * 10 + d == acc0 * pow10((i + 1 - lo) as nat) + digits_value(t.subrange(lo as int, i + 1))) by (nonlinear_arith)
                requires
                    acc == acc0 * pow10((i - lo) as nat) + digits_value(pre),
                    digits_value(t.subrange(lo as int, i + 1)) == digits_value(pre) * 10 + d,
                    pow10((i + 1 - lo) as nat) == 10 * pow10((i - lo) as nat);
        }
        acc = acc * 10 + d;
        i = i + 1;
    }
    proof {
        assert(t.subrange(lo as int, i as int) =~= whole);
    }
    Some(acc)
}

/// Parse decimal text (see `parse_decimal` for the grammar). `None` for
/// text outside the grammar and for values that do not fit `i128` or whose
/// scale exceeds 255.
pub fn dec_parse(txt: &str) -> (r: Option<(i128, u8)>)
    ensures
        r is Some <==> parse_representable(txt@),
        r matches Some((u, sc)) ==> parse_decimal(txt@) == Some((u as int, sc as nat)),
{
    let n: usize = txt.unicode_len();
    let ghost t = txt@;
    let mut start: usize = 0;
    let mut neg = false;
    if n > 0 {
        let c0 = txt.get_char(0);
        if c0 == '-' {
            neg = true;
            start = 1;
        } else if c0 == '+' {
            start = 1;
        }
    }
    let ghost body = t.subrange(start as int, n as int);
    proof {
        if start == 1 {
            assert(body =~= t.drop_first());
        } else {
            assert(body =~= t);
        }
    }
    let p = point_index(txt, start);
    let has_point = p < n;
    let ghost bp: int = p - start;
    proof {
        assert(forall|j: int| 0 <= j < body.len() ==> body[j] == t[j + start]);
        if has_point {
            assert(body[bp] == '.');
            assert(exists|i: int| 0 <= i < body.len() && body[i] == '.');
            let c = choose|i: int| 0 <= i < body.len() && body[i] == '.' && forall|j: int| 0 <= j < i ==> body[j] != '.';
            assert(0 <= bp < body.len() && body[bp] == '.' && forall|j: int| 0 <= j < bp ==> body[j] != '.');
            if c < bp {
                assert(body[c] != '.');
            }
            if c > bp {
                assert(body[bp] != '.');
            }
            assert(find_point(body) == Some(bp));
        } else {
            assert(find_point(body) is None);
        }
    }
    let ghost int_part = body.subrange(0, bp);
    let ghost frac = if has_point { body.subrange(bp + 1, body.len() as int) } else { Seq::<char>::empty() };
    proof {
        assert(int_part =~= t.subrange(start as int, p as int));
        if has_point {
            assert(frac =~= t.subrange(p + 1, n as int));
        }
    }
    if p == start || (has_point && p + 1 == n) {
        return None;
    }
    let frac_lo: usize = if has_point { p + 1 } else { n };
    proof {
        assert(frac =~= t.subrange(frac_lo as int, n as int));
    }
    if !digits_between(txt, start, p) || !digits_between(txt, frac_lo, n) {
        return None;
    }
    let ghost digs = int_part + frac;
    let ghost val = digits_value(digs);
    proof {
        lemma_digits_value_concat(int_part, frac);
        assert(parse_decimal(t) == Some((if neg { -val } else { val }, frac.len())));
        lemma_digits_value_nonneg(int_part);
        lemma_digits_value_nonneg(frac);
        lemma_pow10_pos(frac.len());
        assert(val >= 0) by (nonlinear_arith)
            requires val == digits_value(int_part) * pow10(frac.len()) + digits_value(frac),
                digits_value(int_part) >= 0, pow10(frac.len()) >= 1, digits_value(frac) >= 0;
    }
    if n - frac_lo > 255 {
        return None;
    }
    let limit: u128 = if neg {
        170141183460469231731687303715884105728u128
    } else {
        170141183460469231731687303715884105727u128
    };
    proof {
        assert(pow10(0) == 1);
        assert(0 * pow10((p - start) as nat) == 0);
    }
    let ip = match digits_accumulate(txt, start, p, 0, limit) {
        Some(v) => v,
        None => {
            proof {
                lemma_digits_value_nonneg(frac);
                lemma_pow10_pos(frac.len());
                assert(val >= digits_value(int_part)) by (nonlinear_arith)
                    requires val == digits_value(int_part) * pow10(frac.len()) + digits_value(frac),
                        digits_value(int_part) >= 0, pow10(frac.len()) >= 1, digits_value(frac) >= 0;
            }
            return None;
        },
    };
    let whole = match digits_accumulate(txt, frac_lo, n, ip, limit) {
        Some(v) => v,
        None => {
            return None;
        },
    };
    let v: i128 = if neg {
        if whole == 170141183460469231731687303715884105728u128 {
            i128::MIN
        } else {
            -(whole as i128)
        }
    } else {
        whole as i128
    };
    Some((v, (n - frac_lo) as u8))
}

/// Widening is exact: rescaling a decimal to a larger scale and back to
/// its own scale gives the unscaled value back unchanged.
pub proof fn law_widen_then_narrow(u: int, s: nat, t: nat)
    requires
        s <= t,
    ensures
        rescaled(rescaled(u, s, t), t, s) == u,
{
    let k = (t - s) as nat;
    let d = pow10(k);
    lemma_pow10_pos(k);
    if t == s {
        assert(pow10(0) == 1);
    } else {
        let a = abs_int(u);
        let w = u * d;
        assert(abs_int(w) == a * d) by (nonlinear_arith)
            requires
                w == u * d,
                d >= 1,
                a == abs_int(u),
        ;
        vstd::arithmetic::div_mod::lemma_mod_multiples_basic(a, d);
        vstd::arithmetic::div_mod::lemma_div_multiples_vanish(a, d);
        assert(d * a == a * d) by (nonlinear_arith);
        assert(w < 0 <==> u < 0) by (nonlinear_arith)
            requires
                w == u * d,
                d >= 1,
        ;
    }
}

/// Three-way sign of a mathematical integer.
pub open spec fn sign3(v: int) -> int {
    if v < 0 {
        -1
    } else if v == 0 {
        0
    } else {
        1
    }
}

/// Scaling both sides by a positive factor keeps their order.
pub proof fn lemma_scale_order(x: int, y: int, c: int)
    requires
        c > 0,
    ensures
        (x * c < y * c) == (x < y),
        (x * c == y * c) == (x == y),
{
    if x < y {
        assert(x * c < y * c) by (nonlinear_arith)
            requires
                x < y,
                c > 0,
        ;
    } else if x == y {
    } else {
        assert(x * c > y * c) by (nonlinear_arith)
            requires
                x > y,
                c > 0,
        ;
    }
}

/// Decimals are ordered by value: the order of `a·10^-p` and `b·10^-q`
/// is the sign of the cross product `a·10^q - b·10^p`, whatever the
/// scales.
pub proof fn law_dec_order_by_value(a: i128, p: u8, b: i128, q: u8)
    ensures
        dec_sign(a, p, b, q) == sign3(a * pow10(q as nat) - b * pow10(p as nat)),
{
    lemma_pow10_pos(p as nat);
    lemma_pow10_pos(q as nat);
    assert(pow10(0) == 1);
    if p >= q {
        let k = (p - q) as nat;
        lemma_pow10_add(k, q as nat);
        lemma_pow10_pos(k);
        let r = b * pow10(k);
        assert(b * pow10(p as nat) == r * pow10(q as nat)) by (nonlinear_arith)
            requires
                pow10(p as nat) == pow10(k) * pow10(q as nat),
                r == b * pow10(k),
        ;
        lemma_scale_order(a as int, r, pow10(q as nat));
    } else {
        let k = (q - p) as nat;
        lemma_pow10_add(k, p as nat);
        lemma_pow10_pos(k);
        let l = a * pow10(k);
        assert(a * pow10(q as nat) == l * pow10(p as nat)) by (nonlinear_arith)
            requires
                pow10(q as nat) == pow10(k) * pow10(p as nat),
                l == a * pow10(k),
        ;
        lemma_scale_order(l, b as int, pow10(p as nat));
    }
}

/// Narrowing rounds to the nearest value at the coarser scale, ties away
/// from zero: the result `r` times `10^(s-t)` is within half a step of
/// `u`, and on an exact half it lies away from zero.
pub proof fn law_narrow_rounds_half_away(u: int, s: nat, t: nat)
    requires
        t < s,
    ensures
        ({
            let d = pow10((s - t) as nat);
            let r = rescaled(u, s, t);
            &&& 2 * mag_int(r * d - u) <= d
            &&& 2 * mag_int(r * d - u) == d ==> mag_int(r * d) > mag_int(u)
            &&& (u >= 0 ==> r >= 0) && (u <= 0 ==> r <= 0)
        }),
{
    let d = pow10((s - t) as nat);
    lemma_pow10_pos((s - t) as nat);
    let m = abs_int(u);
    let q0 = m / d;
    let rm = m % d;
    assert(m == q0 * d + rm && 0 <= rm < d) by (nonlinear_arith)
        requires
            d >= 1,
            m >= 0,
            q0 == m / d,
            rm == m % d,
    ;
    let q = if 2 * rm >= d { q0 + 1 } else { q0 };
    assert(round_half_away(u, d) == if u < 0 { -q } else { q });
    assert(q0 >= 0) by (nonlinear_arith)
        requires
            d >= 1,
            m >= 0,
            q0 == m / d,
    ;
    if 2 * rm >= d {
        assert(q * d - m == d - rm) by (nonlinear_arith)
            requires
                q == q0 + 1,
                m == q0 * d + rm,
        ;
    } else {
        assert(q * d - m == -rm) by (nonlinear_arith)
            requires
                q == q0,
                m == q0 * d + rm,
        ;
    }
    if u < 0 {
        assert((-q) * d == -(q * d)) by (nonlinear_arith);
    }
    assert(q * d >= 0) by (nonlinear_arith)
        requires
            q >= 0,
            d >= 1,
    ;
}

/// Magnitude of a mathematical integer.
pub open spec fn mag_int(v: int) -> int {
    if v < 0 {
        -v
    } else {
        v
    }
}

} // verus!
