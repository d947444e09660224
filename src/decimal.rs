use vstd::prelude::*;

verus! {

/// `|a| / q` rounded to the nearest integer, a half away from zero, with the
/// sign of `a`.
pub open spec fn round_half_away(a: int, q: int) -> int {
    let n = if a >= 0 { a } else { -a };
    let r = n / q + if n % q >= q / 2 { 1int } else { 0int };
    if a >= 0 { r } else { -r }
}

/// The number rounded to at most `s` digits after the point: a number with
/// `s` or fewer is unchanged.
pub open spec fn rounded(d: (int, nat), s: nat) -> (int, nat) {
    if d.1 <= s {
        d
    } else {
        (round_half_away(d.0, pow10((d.1 - s) as nat)), s)
    }
}

/// Ten to the power `n`.
pub open spec fn pow10(n: nat) -> int
    decreases n,
{
    if n == 0 {
        1
    } else {
        10 * pow10((n - 1) as nat)
    }
}

pub open spec fn in_i128(x: int) -> bool {
    i128::MIN <= x <= i128::MAX
}

pub proof fn lemma_pow10_positive(n: nat)
    ensures
        pow10(n) >= 1,
    decreases n,
{
    if n > 0 {
        lemma_pow10_positive((n - 1) as nat);
    }
}

pub proof fn lemma_pow10_add(a: nat, b: nat)
    ensures
        pow10(a + b) == pow10(a) * pow10(b),
    decreases b,
{
    if b > 0 {
        lemma_pow10_add(a, (b - 1) as nat);
        assert(pow10(a + b) == 10 * pow10((a + b - 1) as nat));
        assert(pow10(a) * pow10(b) == pow10(a) * (10 * pow10((b - 1) as nat)));
        assert(pow10(a) * (10 * pow10((b - 1) as nat)) == 10 * (pow10(a) * pow10((b - 1) as nat)))
            by (nonlinear_arith);
    }
}

/// An exact decimal number: `units / 10^scale`.
#[derive(Clone, Copy, Debug, PartialEq, Eq)]
pub struct Decimal {
    pub units: i128,
    pub scale: u32,
}

impl Decimal {
    /// The number as a pair (units, scale).
    pub open spec fn model(self) -> (int, nat) {
        (self.units as int, self.scale as nat)
    }

    pub fn new(units: i128, scale: u32) -> (r: Decimal)
        ensures
            r.units == units,
            r.scale == scale,
    {
        Decimal { units, scale }
    }

    pub fn zero() -> (r: Decimal)
        ensures
            r.model() == (0int, 0nat),
    {
        Decimal { units: 0, scale: 0 }
    }
}

/// `a` is strictly greater than `b` as a rational number.
pub open spec fn greater(a: (int, nat), b: (int, nat)) -> bool {
    a.0 * pow10(b.1) > b.0 * pow10(a.1)
}

/// Both numbers brought to the larger of the two scales.
pub open spec fn aligned(a: (int, nat), b: (int, nat)) -> (int, int, nat) {
    if a.1 <= b.1 {
        (a.0 * pow10((b.1 - a.1) as nat), b.0, b.1)
    } else {
        (a.0, b.0 * pow10((a.1 - b.1) as nat), a.1)
    }
}

/// The exact sum at the larger scale, or `None` where a step of it leaves `i128`.
pub open spec fn sum_checked(a: (int, nat), b: (int, nat)) -> Option<(int, nat)> {
    let (x, y, s) = aligned(a, b);
    if in_i128(x) && in_i128(y) && in_i128(x + y) {
        Some((x + y, s))
    } else {
        None
    }
}

/// The exact product, or `None` where it leaves `i128` or the scale leaves `u32`.
pub open spec fn product_checked(a: (int, nat), b: (int, nat)) -> Option<(int, nat)> {
    if in_i128(a.0 * b.0) && a.1 + b.1 <= u32::MAX {
        Some((a.0 * b.0, a.1 + b.1))
    } else {
        None
    }
}

pub proof fn lemma_scaled_grows(m: int, j: nat, k: nat)
    requires
        j <= k,
    ensures
        m >= 0 ==> m * pow10(j) <= m * pow10(k),
        m <= 0 ==> m * pow10(j) >= m * pow10(k),
{
    lemma_pow10_add(j, (k - j) as nat);
    lemma_pow10_positive((k - j) as nat);
    lemma_pow10_positive(j);
    let p = pow10(j);
    let q = pow10((k - j) as nat);
    assert(pow10(k) == p * q);
    assert(m >= 0 ==> m * p <= m * (p * q)) by (nonlinear_arith)
        requires p >= 1, q >= 1;
    assert(m <= 0 ==> m * p >= m * (p * q)) by (nonlinear_arith)
        requires p >= 1, q >= 1;
}

/// `m * 10^k`, where it fits in `i128`.
fn scale_up(m: i128, k: u32) -> (r: Option<i128>)
    ensures
        r == (if in_i128(m * pow10(k as nat)) {
            Some((m * pow10(k as nat)) as i128)
        } else {
            None
        }),
{
    let mut x: i128 = m;
    let mut j: u32 = 0;
    while j < k
        invariant
            j <= k,
            x == m * pow10(j as nat),
        decreases k - j,
    {
        assert(pow10((j + 1) as nat) == 10 * pow10(j as nat));
        assert(m * (10 * pow10(j as nat)) == (m * pow10(j as nat)) * 10) by (nonlinear_arith);
        match x.checked_mul(10) {
            Some(y) => {
                x = y;
                j = j + 1;
            },
            None => {
                proof {
                    lemma_pow10_positive(j as nat);
                    assert(!in_i128(x * 10));
                    assert(m * pow10((j + 1) as nat) == x * 10);
                    lemma_scaled_grows(m as int, (j + 1) as nat, k as nat);
                    assert(m >= 0 ==> x * 10 >= 0) by (nonlinear_arith)
                        requires x == m * pow10(j as nat), pow10(j as nat) >= 1;
                    assert(m <= 0 ==> x * 10 <= 0) by (nonlinear_arith)
                        requires x == m * pow10(j as nat), pow10(j as nat) >= 1;
                }
                return None;
            },
        }
    }
    Some(x)
}

impl Decimal {
    /// Exact sum; `None` where it does not fit.
    pub fn checked_add(self, other: Decimal) -> (r: Option<Decimal>)
        ensures
            r is Some <==> sum_checked(self.model(), other.model()) is Some,
            r is Some ==> r->0.model() == sum_checked(self.model(), other.model())->0,
    {
        if self.scale <= other.scale {
            match scale_up(self.units, other.scale - self.scale) {
                Some(x) => match x.checked_add(other.units) {
                    Some(u) => Some(Decimal { units: u, scale: other.scale }),
                    None => None,
                },
                None => None,
            }
        } else {
            match scale_up(other.units, self.scale - other.scale) {
                Some(y) => match self.units.checked_add(y) {
                    Some(u) => Some(Decimal { units: u, scale: self.scale }),
                    None => None,
                },
                None => None,
            }
        }
    }

    /// Exact product; `None` where it does not fit.
    pub fn checked_mul(self, other: Decimal) -> (r: Option<Decimal>)
        ensures
            r is Some <==> product_checked(self.model(), other.model()) is Some,
            r is Some ==> r->0.model() == product_checked(self.model(), other.model())->0,
    {
        match self.units.checked_mul(other.units) {
            Some(u) => match self.scale.checked_add(other.scale) {
                Some(s) => Some(Decimal { units: u, scale: s }),
                None => None,
            },
            None => None,
        }
    }
}

proof fn lemma_greater_aligned(a: (int, nat), b: (int, nat))
    ensures
        greater(a, b) == (aligned(a, b).0 > aligned(a, b).1),
{
    if a.1 <= b.1 {
        let k = (b.1 - a.1) as nat;
        lemma_pow10_add(a.1, k);
        lemma_pow10_positive(a.1);
        let p = pow10(a.1);
        let q = pow10(k);
        assert(pow10(b.1) == p * q);
        assert(a.0 * (p * q) == (a.0 * q) * p) by (nonlinear_arith);
        assert(((a.0 * q) * p > b.0 * p) == (a.0 * q > b.0)) by (nonlinear_arith)
            requires p >= 1;
    } else {
        let k = (a.1 - b.1) as nat;
        lemma_pow10_add(b.1, k);
        lemma_pow10_positive(b.1);
        let p = pow10(b.1);
        let q = pow10(k);
        assert(pow10(a.1) == p * q);
        assert(b.0 * (p * q) == (b.0 * q) * p) by (nonlinear_arith);
        assert((a.0 * p > (b.0 * q) * p) == (a.0 > b.0 * q)) by (nonlinear_arith)
            requires p >= 1;
    }
}

proof fn sign_of_scaled(m: int, k: nat)
    ensures
        m > 0 ==> m * pow10(k) > 0,
        m == 0 ==> m * pow10(k) == 0,
        m < 0 ==> m * pow10(k) < 0,
{
    lemma_pow10_positive(k);
    let q = pow10(k);
    assert(m > 0 ==> m * q > 0) by (nonlinear_arith)
        requires q >= 1;
    assert(m < 0 ==> m * q < 0) by (nonlinear_arith)
        requires q >= 1;
}

impl Decimal {
    /// Strict comparison of the two numbers' values.
    pub fn greater_than(self, other: Decimal) -> (r: bool)
        ensures
            r == greater(self.model(), other.model()),
    {
        proof {
            lemma_greater_aligned(self.model(), other.model());
        }
        if self.scale <= other.scale {
            match scale_up(self.units, other.scale - self.scale) {
                Some(x) => x > other.units,
                None => {
                    proof {
                        sign_of_scaled(self.units as int, (other.scale - self.scale) as nat);
                    }
                    self.units > 0
                },
            }
        } else {
            match scale_up(other.units, self.scale - other.scale) {
                Some(y) => self.units > y,
                None => {
                    proof {
                        sign_of_scaled(other.units as int, (self.scale - other.scale) as nat);
                    }
                    other.units < 0
                },
            }
        }
    }
}

pub open spec fn is_digit(c: char) -> bool {
    '0' <= c && c <= '9'
}

pub open spec fn digit_value(c: char) -> int {
    (c as int) - ('0' as int)
}

/// What a run of digits with at most one point has given so far.
pub struct DigitScan {
    /// The digits read as one integer, the point ignored.
    pub value: int,
    /// Digits after the point.
    pub frac: nat,
    pub point: bool,
    /// Digits in all.
    pub count: nat,
}

/// Reads decimal digits with at most one point; `None` on any other character
/// or on a second point.
pub open spec fn scan_digits(s: Seq<char>) -> Option<DigitScan>
    decreases s.len(),
{
    if s.len() == 0 {
        Some(DigitScan { value: 0, frac: 0, point: false, count: 0 })
    } else {
        match scan_digits(s.drop_last()) {
            None => None,
            Some(p) => {
                let c = s.last();
                if c == '.' {
                    if p.point {
                        None
                    } else {
                        Some(DigitScan { point: true, ..p })
                    }
                } else if is_digit(c) {
                    Some(
                        DigitScan {
                            value: p.value * 10 + digit_value(c),
                            frac: if p.point { p.frac + 1 } else { p.frac },
                            point: p.point,
                            count: p.count + 1,
                        },
                    )
                } else {
                    None
                }
            },
        }
    }
}

pub open spec fn has_sign(s: Seq<char>) -> bool {
    s.len() > 0 && (s[0] == '-' || s[0] == '+')
}

pub open spec fn unsigned_part(s: Seq<char>) -> Seq<char> {
    if has_sign(s) {
        s.drop_first()
    } else {
        s
    }
}

/// The digits of `t` read as one integer.
pub open spec fn digits_value(t: Seq<char>) -> int
    decreases t.len(),
{
    if t.len() == 0 {
        0
    } else {
        digits_value(t.drop_last()) * 10 + digit_value(t.last())
    }
}

pub open spec fn all_digits(t: Seq<char>) -> bool {
    forall|i: int| 0 <= i < t.len() ==> is_digit(#[trigger] t[i])
}

pub proof fn lemma_digits_prefix(t: Seq<char>, i: int)
    requires
        0 <= i <= t.len(),
        all_digits(t),
    ensures
        0 <= digits_value(t.take(i)) <= digits_value(t),
    decreases t.len(),
{
    if t.len() > 0 {
        if i == t.len() {
            assert(t.take(i) =~= t);
            lemma_digits_prefix(t.drop_last(), i - 1);
        } else {
            assert(t.drop_last().take(i) =~= t.take(i));
            lemma_digits_prefix(t.drop_last(), i);
        }
    } else {
        assert(t.take(i) =~= t);
    }
}

pub open spec fn is_exp_mark(c: char) -> bool {
    c == 'e' || c == 'E'
}

pub open spec fn has_exp_mark(b: Seq<char>) -> bool {
    exists|k: int| 0 <= k < b.len() && is_exp_mark(#[trigger] b[k])
}

pub open spec fn exp_mark(b: Seq<char>) -> int {
    choose|k: int| 0 <= k < b.len() && is_exp_mark(#[trigger] b[k])
}

/// The digits and point before the exponent mark.
pub open spec fn mantissa_part(b: Seq<char>) -> Seq<char> {
    if has_exp_mark(b) {
        b.take(exp_mark(b))
    } else {
        b
    }
}

/// An exponent: an optional sign, then one or more digits.
pub open spec fn exponent_of(t: Seq<char>) -> Option<int> {
    let d = unsigned_part(t);
    if d.len() > 0 && all_digits(d) {
        Some(if t[0] == '-' { -digits_value(d) } else { digits_value(d) })
    } else {
        None
    }
}

/// The exponent after the mark; zero where there is no mark.
pub open spec fn exponent_part(b: Seq<char>) -> Option<int> {
    if has_exp_mark(b) {
        exponent_of(b.skip(exp_mark(b) + 1))
    } else {
        Some(0)
    }
}

/// `m / 10^f * 10^e` as (units, scale), the scale never below zero.
pub open spec fn scaled(m: int, f: nat, e: int) -> (int, int) {
    if e <= f {
        (m, f - e)
    } else {
        (m * pow10((e - f) as nat), 0)
    }
}

/// The number that a text in decimal notation denotes, as (units, scale): an
/// optional sign, digits with at most one point (at least one digit), then an
/// optional exponent `e` or `E` with an optional sign and digits. The words for
/// infinity and not-a-number denote nothing here: a `Decimal` cannot hold them.
pub open spec fn decimal_of(s: Seq<char>) -> Option<(int, int)> {
    let b = unsigned_part(s);
    match scan_digits(mantissa_part(b)) {
        Some(p) => match exponent_part(b) {
            Some(e) => if p.count > 0 {
                Some(scaled(if s[0] == '-' { -p.value } else { p.value }, p.frac, e))
            } else {
                None
            },
            None => None,
        },
        None => None,
    }
}

/// A number that a `Decimal` holds: a magnitude within `i128` and a scale
/// within `u32`. Magnitudes beyond that are outside what it can hold.
pub open spec fn representable(d: (int, int)) -> bool {
    -i128::MAX <= d.0 <= i128::MAX && 0 <= d.1 <= u32::MAX
}

proof fn lemma_scan_chars(s: Seq<char>, i: int)
    requires
        0 <= i < s.len(),
        scan_digits(s) is Some,
    ensures
        is_digit(s[i]) || s[i] == '.',
    decreases s.len(),
{
    if i < s.len() - 1 {
        assert(s.drop_last()[i] == s[i]);
        lemma_scan_chars(s.drop_last(), i);
    }
}

proof fn lemma_no_mark_in_exponent(t: Seq<char>, i: int)
    requires
        0 <= i < t.len(),
        exponent_of(t) is Some,
    ensures
        is_digit(t[i]) || t[i] == '-' || t[i] == '+',
{
    if has_sign(t) && i > 0 {
        assert(unsigned_part(t)[i - 1] == t[i]);
    }
}

/// A text with a character other than a digit, a point, a sign or an exponent
/// mark is no number.
pub proof fn lemma_foreign_char_no_number(s: Seq<char>, k: int)
    requires
        0 <= k < s.len(),
        !is_digit(s[k]),
        s[k] != '.',
        s[k] != '-',
        s[k] != '+',
        !is_exp_mark(s[k]),
    ensures
        decimal_of(s) is None,
{
    let b = unsigned_part(s);
    let kb = if has_sign(s) { k - 1 } else { k };
    assert(b[kb] == s[k]);
    if scan_digits(mantissa_part(b)) is Some && exponent_part(b) is Some {
        if has_exp_mark(b) {
            let m = exp_mark(b);
            if kb < m {
                assert(mantissa_part(b)[kb] == b[kb]);
                lemma_scan_chars(mantissa_part(b), kb);
            } else {
                assert(b.skip(m + 1)[kb - m - 1] == b[kb]);
                lemma_no_mark_in_exponent(b.skip(m + 1), kb - m - 1);
            }
        } else {
            lemma_scan_chars(b, kb);
        }
    }
}

/// What `parse_decimal` returns for a text.
pub open spec fn parsed_decimal(s: Seq<char>) -> Option<(int, nat)> {
    match decimal_of(s) {
        Some(d) => if representable(d) {
            Some((d.0, d.1 as nat))
        } else {
            None
        },
        None => None,
    }
}

proof fn lemma_scan_prefix(s: Seq<char>, i: int)
    requires
        0 <= i <= s.len(),
    ensures
        scan_digits(s.take(i)) is None ==> scan_digits(s) is None,
        scan_digits(s) is Some ==> scan_digits(s)->0.value >= 0,
        scan_digits(s) is Some ==> scan_digits(s.take(i))->0.value <= scan_digits(s)->0.value,
        scan_digits(s) is Some ==> scan_digits(s.take(i))->0.frac <= scan_digits(s)->0.frac,
    decreases s.len(),
{
    if s.len() > 0 {
        if i == s.len() {
            assert(s.take(i) == s);
            lemma_scan_prefix(s.drop_last(), i - 1);
        } else {
            assert(s.drop_last().take(i) == s.take(i));
            lemma_scan_prefix(s.drop_last(), i);
        }
    } else {
        assert(s.take(i) == s);
    }
}

/// Reads digits with at most one point from `s[from..to]`: (value, digits after
/// the point, digits in all); `None` where that is no such run or its value
/// leaves `i128`.
fn scan_run(s: &str, from: usize, to: usize) -> (r: Option<(i128, usize, usize)>)
    requires
        from <= to <= s@.len(),
    ensures
        ({
            let t = s@.subrange(from as int, to as int);
            &&& match r {
                Some((v, f, c)) => v >= 0 && scan_digits(t) is Some && scan_digits(t)->0.value == v
                    && scan_digits(t)->0.frac == f && scan_digits(t)->0.count == c,
                None => scan_digits(t) is None || scan_digits(t)->0.value > i128::MAX,
            }
        }),
{
    let ghost body = s@.subrange(from as int, to as int);
    let mut units: i128 = 0;
    let mut frac: usize = 0;
    let mut dot = false;
    let mut digits: usize = 0;
    let mut i: usize = from;
    assert(body.take(0) =~= Seq::<char>::empty());
    while i < to
        invariant
            from <= i <= to,
            to <= s@.len(),
            body == s@.subrange(from as int, to as int),
            digits <= i - from,
            frac <= digits,
            0 <= units,
            scan_digits(body.take(i - from)) == Some(
                DigitScan {
                    value: units as int,
                    frac: frac as nat,
                    point: dot,
                    count: digits as nat,
                },
            ),
        decreases to - i,
    {
        let c = s.get_char(i);
        let ghost k = i - from;
        assert(body.take(k + 1).drop_last() =~= body.take(k));
        assert(body.take(k + 1).last() == c);
        if c == '.' {
            if dot {
                proof {
                    lemma_scan_prefix(body, k + 1);
                }
                return None;
            }
            dot = true;
        } else if '0' <= c && c <= '9' {
            let d = ((c as u32) - ('0' as u32)) as i128;
            let next = match units.checked_mul(10) {
                Some(t) => t.checked_add(d),
                None => None,
            };
            match next {
                Some(u) => {
                    units = u;
                },
                None => {
                    proof {
                        lemma_scan_prefix(body, k + 1);
                    }
                    return None;
                },
            }
            if dot {
                frac = frac + 1;
            }
            digits = digits + 1;
        } else {
            proof {
                lemma_scan_prefix(body, k + 1);
            }
            return None;
        }
        i = i + 1;
    }
    assert(body.take(to - from) =~= body);
    Some((units, frac, digits))
}

/// Reads an exponent from `s[from..to]`: whether it is negative, and its
/// magnitude where that fits in `i128` (`None` beyond); `None` where the text is
/// no exponent.
fn scan_exponent(s: &str, from: usize, to: usize) -> (r: Option<(bool, Option<i128>)>)
    requires
        from <= to <= s@.len(),
    ensures
        ({
            let t = s@.subrange(from as int, to as int);
            let mag = digits_value(unsigned_part(t));
            &&& r is Some <==> exponent_of(t) is Some
            &&& match r {
                Some((ng, _)) => exponent_of(t)->0 == if ng { -mag } else { mag },
                None => true,
            }
            &&& r is Some ==> mag >= 0
            &&& r matches Some((_, Some(v))) ==> v == mag
            &&& r matches Some((_, None)) ==> mag > i128::MAX
        }),
{
    let ghost t = s@.subrange(from as int, to as int);
    let mut start: usize = from;
    let mut neg = false;
    if from < to {
        let c0 = s.get_char(from);
        if c0 == '-' {
            neg = true;
            start = from + 1;
        } else if c0 == '+' {
            start = from + 1;
        }
    }
    let ghost d = unsigned_part(t);
    assert(d =~= s@.subrange(start as int, to as int));
    if start == to {
        return None;
    }
    let mut v: i128 = 0;
    let mut big = false;
    let mut i: usize = start;
    assert(d.take(0) =~= Seq::<char>::empty());
    while i < to
        invariant
            start <= i <= to,
            to <= s@.len(),
            d == s@.subrange(start as int, to as int),
            t == s@.subrange(from as int, to as int),
            d == unsigned_part(t),
            forall|j: int| 0 <= j < i - start ==> is_digit(#[trigger] d[j]),
            !big ==> v as int == digits_value(d.take(i - start)),
            big ==> digits_value(d.take(i - start)) > i128::MAX,
        decreases to - i,
    {
        let c = s.get_char(i);
        let ghost k = i - start;
        assert(d.take(k + 1).drop_last() =~= d.take(k));
        assert(d.take(k + 1).last() == c);
        if !('0' <= c && c <= '9') {
            assert(d[k] == c);
            assert(!all_digits(d));
            return None;
        }
        proof {
            assert(forall|j: int| 0 <= j < k + 1 ==> is_digit(#[trigger] d.take(k + 1)[j]));
            lemma_digits_prefix(d.take(k + 1), k);
            assert(d.take(k + 1).take(k) =~= d.take(k));
        }
        if !big {
            let dv = ((c as u32) - ('0' as u32)) as i128;
            let next = match v.checked_mul(10) {
                Some(x) => x.checked_add(dv),
                None => None,
            };
            match next {
                Some(x) => {
                    v = x;
                },
                None => {
                    big = true;
                },
            }
        }
        i = i + 1;
    }
    assert(d.take(to - start) =~= d);
    proof {
        assert(all_digits(d));
        lemma_digits_prefix(d, 0);
    }
    if big {
        Some((neg, None))
    } else {
        Some((neg, Some(v)))
    }
}

proof fn lemma_pow10_large(m: int, k: nat)
    requires
        m != 0,
        k >= 39,
    ensures
        !(-i128::MAX <= m * pow10(k) <= i128::MAX),
{
    reveal_with_fuel(pow10, 40);
    assert(pow10(39) > i128::MAX);
    lemma_scaled_grows(1, 39, k);
    let p = pow10(k);
    assert(p >= pow10(39));
    assert(m >= 1 ==> m * p >= p) by (nonlinear_arith)
        requires p >= 0;
    assert(m <= -1 ==> m * p <= -p) by (nonlinear_arith)
        requires p >= 0;
}

proof fn lemma_pow10_above_i128(k: nat)
    requires
        k >= 39,
    ensures
        pow10(k) > 2 * (i128::MAX as int) + 2,
{
    reveal_with_fuel(pow10, 40);
    assert(pow10(39) > 2 * (i128::MAX as int) + 2);
    lemma_scaled_grows(1, 39, k);
}

/// Ten to the 24th, written out.
pub proof fn lemma_pow10_24()
    ensures
        pow10(24) == 1_000_000_000_000_000_000_000_000,
{
    reveal_with_fuel(pow10, 25);
}

/// Rounding a multiple of `q` to whole units of `q` is exact.
pub proof fn lemma_round_exact(c: int, q: int)
    requires
        q >= 2,
    ensures
        round_half_away(c * q, q) == c,
{
    let n = if c * q >= 0 { c * q } else { -(c * q) };
    let m = if c >= 0 { c } else { -c };
    assert(n == m * q) by (nonlinear_arith)
        requires n == (if c * q >= 0 { c * q } else { -(c * q) }), m == (if c >= 0 { c } else { -c }), q >= 2;
    assert((m * q) / q == m) by (nonlinear_arith)
        requires q >= 2, m >= 0;
    assert((m * q) % q == 0) by (nonlinear_arith)
        requires q >= 2, m >= 0;
    assert(c * q >= 0 <==> c >= 0) by (nonlinear_arith)
        requires q >= 2;
    if c < 0 {
        assert(c * q < 0) by (nonlinear_arith)
            requires q >= 2, c < 0;
    }
}

proof fn lemma_pow10_38()
    ensures
        pow10(38) <= i128::MAX,
        pow10(1) == 10,
{
    reveal_with_fuel(pow10, 40);
}

proof fn lemma_pow10_small(k: nat)
    requires
        1 <= k <= 38,
    ensures
        10 <= pow10(k) <= i128::MAX,
        pow10(k) % 2 == 0,
{
    lemma_pow10_38();
    lemma_scaled_grows(1, 1, k);
    lemma_scaled_grows(1, k, 38);
    let x = pow10((k - 1) as nat);
    assert(pow10(k) == 10 * x);
    assert((10 * x) % 2 == 0) by (nonlinear_arith);
}

impl Decimal {
    /// The number rounded to at most `s` digits after the point, a half away
    /// from zero.
    pub fn round_to(self, s: u32) -> (r: Decimal)
        ensures
            r.model() == rounded(self.model(), s as nat),
    {
        if self.scale <= s {
            return self;
        }
        let k = self.scale - s;
        let a = self.units;
        let ghost n = if a >= 0 { a as int } else { -(a as int) };
        if k > 38 {
            proof {
                let q = pow10(k as nat);
                lemma_pow10_above_i128(k as nat);
                assert(n / q == 0) by (nonlinear_arith)
                    requires 0 <= n <= i128::MAX + 1, q > 2 * (i128::MAX as int) + 2;
                assert(n % q == n) by (nonlinear_arith)
                    requires 0 <= n <= i128::MAX + 1, q > 2 * (i128::MAX as int) + 2;
                assert(n < q / 2);
            }
            return Decimal { units: 0, scale: s };
        }
        proof {
            lemma_pow10_small(k as nat);
        }
        let q = match scale_up(1, k) {
            Some(q) => q,
            None => {
                proof {
                    assert(1 * pow10(k as nat) == pow10(k as nat));
                }
                return Decimal { units: 0, scale: s };
            },
        };
        assert(q == pow10(k as nat));
        let mag: u128 = if a >= 0 {
            a as u128
        } else {
            (-(a + 1)) as u128 + 1
        };
        assert(mag == n);
        let qu = q as u128;
        let whole = mag / qu;
        let rest = mag % qu;
        let bump: u128 = if rest >= qu / 2 {
            1
        } else {
            0
        };
        assert(whole <= mag / 10) by (nonlinear_arith)
            requires whole == mag / qu, qu >= 10, mag >= 0;
        let r: u128 = whole + bump;
        let units = if a >= 0 {
            r as i128
        } else {
            -(r as i128)
        };
        Decimal { units, scale: s }
    }
}

proof fn lemma_first_mark(b: Seq<char>, k: int)
    requires
        0 <= k < b.len(),
        is_exp_mark(b[k]),
        forall|j: int| 0 <= j < k ==> !is_exp_mark(#[trigger] b[j]),
    ensures
        (scan_digits(mantissa_part(b)) is Some && exponent_part(b) is Some) <==> (scan_digits(
            b.take(k),
        ) is Some && exponent_of(b.skip(k + 1)) is Some),
        (scan_digits(mantissa_part(b)) is Some && exponent_part(b) is Some) ==> mantissa_part(b)
            == b.take(k) && exponent_part(b) == exponent_of(b.skip(k + 1)),
{
    assert(has_exp_mark(b));
    let m = exp_mark(b);
    if m != k {
        assert(m > k);
        if scan_digits(b.take(m)) is Some {
            assert(b.take(m)[k] == b[k]);
            lemma_scan_chars(b.take(m), k);
        }
        if exponent_of(b.skip(k + 1)) is Some {
            assert(b.skip(k + 1)[m - k - 1] == b[m]);
            lemma_no_mark_in_exponent(b.skip(k + 1), m - k - 1);
        }
    }
}

/// Reads a number in decimal notation; `None` where the text is no such number
/// or the number does not fit a `Decimal`.
#[verifier::rlimit(40)]
pub fn parse_decimal(s: &str) -> (r: Option<Decimal>)
    ensures
        r is Some <==> parsed_decimal(s@) is Some,
        r is Some ==> r->0.model() == parsed_decimal(s@)->0,
{
    let n = s.unicode_len();
    let mut start: usize = 0;
    let mut neg = false;
    if n > 0 {
        let c0 = s.get_char(0);
        if c0 == '-' {
            neg = true;
            start = 1;
        } else if c0 == '+' {
            start = 1;
        }
    }
    let ghost b = unsigned_part(s@);
    assert(b =~= s@.subrange(start as int, n as int));
    let mut k: usize = start;
    while k < n && !(s.get_char(k) == 'e' || s.get_char(k) == 'E')
        invariant
            start <= k <= n,
            n == s@.len(),
            b == s@.subrange(start as int, n as int),
            forall|j: int| 0 <= j < k - start ==> !is_exp_mark(#[trigger] b[j]),
        decreases n - k,
    {
        k = k + 1;
    }
    let ghost kb = k - start;
    proof {
        if k < n {
            assert(b[kb] == s@[k as int]);
            lemma_first_mark(b, kb);
            assert(has_exp_mark(b));
        } else {
            assert(!has_exp_mark(b));
            assert(mantissa_part(b) == b);
            assert(s@.subrange(start as int, k as int) == b);
        }
        if k < n {
            assert(b.take(kb) =~= s@.subrange(start as int, k as int));
            assert(b.skip(kb + 1) =~= s@.subrange(k + 1, n as int));
        }
    }
    let ghost mant = s@.subrange(start as int, k as int);
    assert(scan_digits(mantissa_part(b)) is Some && exponent_part(b) is Some ==> mantissa_part(b)
        == mant && (k < n ==> exponent_part(b) == exponent_of(s@.subrange(k + 1, n as int))));
    assert(k == n ==> exponent_part(b) == Some(0int));
    assert(k < n ==> (scan_digits(mantissa_part(b)) is Some && exponent_part(b) is Some <==> (
    scan_digits(mant) is Some && exponent_of(s@.subrange(k + 1, n as int)) is Some)));
    let (units, frac, digits) = match scan_run(s, start, k) {
        Some(x) => x,
        None => {
            proof {
                if decimal_of(s@) is Some {
                    let p = scan_digits(mant)->0;
                    let e = exponent_part(b)->0;
                    lemma_scan_prefix(mant, 0);
                    if e > p.frac {
                        lemma_scaled_grows(p.value, 0, (e - p.frac) as nat);
                        lemma_scaled_grows(-p.value, 0, (e - p.frac) as nat);
                    }
                }
            }
            return None;
        },
    };
    if digits == 0 {
        return None;
    }
    let m: i128 = if neg {
        -units
    } else {
        units
    };
    let e: i128 = if k < n {
        match scan_exponent(s, k + 1, n) {
            None => {
                return None;
            },
            Some((eneg, Some(v))) => if eneg {
                -v
            } else {
                v
            },
            Some((eneg, None)) => {
                if eneg || m != 0 {
                    proof {
                        if !eneg {
                            let mag = exponent_part(b)->0;
                            lemma_pow10_large(m as int, (mag - frac) as nat);
                        }
                    }
                    return None;
                }
                proof {
                    let ev = exponent_part(b)->0;
                    assert(ev > frac);
                    let q = pow10((ev - frac) as nat);
                    assert(0 * q == 0) by (nonlinear_arith);
                    assert(neg == (s@[0] == '-'));
                    assert(decimal_of(s@) == Some(scaled(m as int, frac as nat, ev)));
                }
                return Some(Decimal { units: 0, scale: 0 });
            },
        }
    } else {
        0
    };
    assert(exponent_part(b) == Some(e as int));
    assert(neg == (s@[0] == '-'));
    assert(decimal_of(s@) == Some(scaled(m as int, frac as nat, e as int)));
    combine(m, frac, e)
}

/// `m / 10^f * 10^e` as a `Decimal`, where it can hold it.
fn combine(m: i128, f: usize, e: i128) -> (r: Option<Decimal>)
    requires
        -i128::MAX <= m,
    ensures
        r is Some <==> representable(scaled(m as int, f as nat, e as int)),
        r is Some ==> r->0.model() == (scaled(m as int, f as nat, e as int).0, scaled(
            m as int,
            f as nat,
            e as int,
        ).1 as nat),
{
    let f = f as i128;
    if e <= f {
        match f.checked_sub(e) {
            Some(sc) => if sc <= u32::MAX as i128 {
                Some(Decimal { units: m, scale: sc as u32 })
            } else {
                None
            },
            None => None,
        }
    } else {
        let kk = e - f;
        if m == 0 {
            assert(0 * pow10(kk as nat) == 0);
            Some(Decimal { units: 0, scale: 0 })
        } else if kk > 38 {
            proof {
                lemma_pow10_large(m as int, kk as nat);
            }
            None
        } else {
            match scale_up(m, kk as u32) {
                Some(u) => if u == i128::MIN {
                    None
                } else {
                    Some(Decimal { units: u, scale: 0 })
                },
                None => None,
            }
        }
    }
}

} // verus!
