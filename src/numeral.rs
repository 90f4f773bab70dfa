//! Numerals: the text form of every numeric field (decimal notation with an
//! optional exponent), the truncation toward zero that turns a numeral into
//! a class label, and the decimal rendering of a label.
use vstd::prelude::*;
use vstd::string::*;
use vstd::arithmetic::div_mod::{lemma_div_denominator, lemma_fundamental_div_mod_converse};

verus! {

/// Whether `c` is one of the ASCII digits.
pub open spec fn is_digit(c: char) -> bool {
    '0' <= c && c <= '9'
}

/// The value of a digit character.
pub open spec fn digit_value(c: char) -> nat {
    (c as u32 - '0' as u32) as nat
}

/// The digit character of a value below ten.
pub open spec fn digit_char(d: nat) -> char {
    if d == 0 {
        '0'
    } else if d == 1 {
        '1'
    } else if d == 2 {
        '2'
    } else if d == 3 {
        '3'
    } else if d == 4 {
        '4'
    } else if d == 5 {
        '5'
    } else if d == 6 {
        '6'
    } else if d == 7 {
        '7'
    } else if d == 8 {
        '8'
    } else {
        '9'
    }
}

/// Every character of `t` is a digit.
pub open spec fn all_digits(t: Seq<char>) -> bool {
    forall|i: int| 0 <= i < t.len() ==> is_digit(#[trigger] t[i])
}

/// The natural number that a run of digits denotes (the empty run denotes 0).
pub open spec fn digits_value(t: Seq<char>) -> nat
    decreases t.len(),
{
    if t.len() == 0 {
        0
    } else {
        digits_value(t.drop_last()) * 10 + digit_value(t.last())
    }
}

/// The shortest decimal rendering of `n`, without sign or leading zeros.
pub open spec fn decimal(n: nat) -> Seq<char>
    decreases n,
{
    if n < 10 {
        seq![digit_char(n)]
    } else {
        decimal(n / 10).push(digit_char(n % 10))
    }
}

/// Whether the numeral carries a leading sign character.
pub open spec fn has_sign(s: Seq<char>) -> bool {
    s.len() > 0 && (s[0] == '+' || s[0] == '-')
}

/// The numeral without its sign.
pub open spec fn unsigned_part(s: Seq<char>) -> Seq<char> {
    if has_sign(s) {
        s.drop_first()
    } else {
        s
    }
}

/// The shape of an unsigned decimal numeral: digits, or digits, a point and
/// digits, with at least one digit in all.
pub open spec fn is_unsigned_numeral(u: Seq<char>) -> bool {
    (u.len() > 0 && all_digits(u)) || (exists|k: int|
        0 <= k < u.len() && u.len() > 1 && u[k] == '.' && all_digits(#[trigger] u.take(k))
            && all_digits(u.skip(k + 1)))
}

/// Whether `c` marks an exponent.
pub open spec fn is_exp_mark(c: char) -> bool {
    c == 'e' || c == 'E'
}

/// The index of the first character of `u` that is `a` or `b`; the length of
/// `u` when there is none.
pub open spec fn first_of(u: Seq<char>, a: char, b: char) -> nat
    decreases u.len(),
{
    if u.len() == 0 {
        0
    } else if u[0] == a || u[0] == b {
        0
    } else {
        1 + first_of(u.drop_first(), a, b)
    }
}

/// Where the exponent mark of an unsigned numeral stands (its length when it
/// has none).
pub open spec fn exp_pos(u: Seq<char>) -> int {
    first_of(u, 'e', 'E') as int
}

/// The text before the exponent mark.
pub open spec fn mantissa(u: Seq<char>) -> Seq<char> {
    u.take(exp_pos(u))
}

/// The numeral has an exponent mark.
pub open spec fn has_exponent(u: Seq<char>) -> bool {
    exp_pos(u) < u.len()
}

/// The text after the exponent mark.
pub open spec fn exponent_text(u: Seq<char>) -> Seq<char> {
    u.skip(exp_pos(u) + 1)
}

/// An exponent: an optional sign and at least one digit.
pub open spec fn is_exponent(x: Seq<char>) -> bool {
    unsigned_part(x).len() > 0 && all_digits(unsigned_part(x))
}

/// A numeral: an optional `+` or `-`, an unsigned decimal (digits with at
/// most one point, at least one digit), and optionally `e` or `E` followed
/// by a signed integer exponent, as in `-2.5e-3`. Names such as `inf` or
/// `NaN` are not numerals: they are no real numbers.
pub open spec fn is_numeral(s: Seq<char>) -> bool {
    let u = unsigned_part(s);
    is_unsigned_numeral(mantissa(u)) && (has_exponent(u) ==> is_exponent(exponent_text(u)))
}

/// Ten to the power `k`.
pub open spec fn pow10(k: nat) -> nat
    decreases k,
{
    if k == 0 {
        1
    } else {
        10 * pow10((k - 1) as nat)
    }
}

/// Where the point of a mantissa stands (its length when it has none).
pub open spec fn point_pos(m: Seq<char>) -> int {
    first_of(m, '.', '.') as int
}

/// The digits of a mantissa, without its point.
pub open spec fn mantissa_digits(m: Seq<char>) -> Seq<char> {
    if point_pos(m) < m.len() {
        m.take(point_pos(m)) + m.skip(point_pos(m) + 1)
    } else {
        m
    }
}

/// The number of digits after the point of a mantissa.
pub open spec fn fraction_len(m: Seq<char>) -> int {
    if point_pos(m) < m.len() {
        m.len() - point_pos(m) - 1
    } else {
        0
    }
}

/// The value of the exponent of an unsigned numeral (0 when it has none).
pub open spec fn exponent_value(u: Seq<char>) -> int {
    if has_exponent(u) {
        let x = exponent_text(u);
        let v = digits_value(unsigned_part(x)) as int;
        if x.len() > 0 && x[0] == '-' {
            -v
        } else {
            v
        }
    } else {
        0
    }
}

/// The power of ten that scales the mantissa's digits, read as an integer,
/// to the numeral's magnitude.
pub open spec fn scale(s: Seq<char>) -> int {
    let u = unsigned_part(s);
    exponent_value(u) - fraction_len(mantissa(u))
}

/// The mantissa's digits read as an integer.
pub open spec fn significand(s: Seq<char>) -> nat {
    digits_value(mantissa_digits(mantissa(unsigned_part(s))))
}

/// The numeral's magnitude truncated toward zero.
pub open spec fn truncated_magnitude(s: Seq<char>) -> nat {
    truncate_scaled(significand(s), scale(s))
}

/// The class label of a numeral: its value truncated toward zero, when that
/// is a non-negative integer that fits in `usize`. A numeral written with a
/// minus sign has the label 0 when it truncates to 0, and none otherwise.
pub open spec fn label_of(s: Seq<char>) -> Option<nat> {
    let t = truncated_magnitude(s);
    if s.len() > 0 && s[0] == '-' {
        if t == 0 {
            Some(0)
        } else {
            None
        }
    } else if t > usize::MAX {
        None
    } else {
        Some(t)
    }
}

/// Whether `c` is one of the ASCII digits.
fn is_digit_char(c: char) -> (r: bool)
    ensures
        r == is_digit(c),
{
    '0' <= c && c <= '9'
}

/// `first_of` finds the first match.
proof fn lemma_first_of(u: Seq<char>, a: char, b: char, i: int)
    requires
        0 <= i <= u.len(),
        forall|j: int| 0 <= j < i ==> u[j] != a && u[j] != b,
        i == u.len() || u[i] == a || u[i] == b,
    ensures
        first_of(u, a, b) == i,
    decreases i,
{
    if i > 0 {
        let t = u.drop_first();
        assert forall|j: int| 0 <= j < i - 1 implies t[j] != a && t[j] != b by {
            assert(t[j] == u[j + 1]);
        }
        if i < u.len() {
            assert(t[i - 1] == u[i]);
        }
        lemma_first_of(t, a, b, i - 1);
    }
}

/// The index in `[from, to)` of the first exponent mark of the text, or `to`.
fn find_exp_mark(s: &str, from: usize, to: usize) -> (r: usize)
    requires
        from <= to <= s@.len(),
    ensures
        from <= r <= to,
        r - from == first_of(s@.subrange(from as int, to as int), 'e', 'E'),
{
    let ghost u = s@.subrange(from as int, to as int);
    let mut i: usize = from;
    while i < to
        invariant
            from <= i <= to <= s@.len(),
            u == s@.subrange(from as int, to as int),
            forall|j: int| 0 <= j < i - from ==> u[j] != 'e' && u[j] != 'E',
        decreases to - i,
    {
        let c = s.get_char(i);
        if c == 'e' || c == 'E' {
            proof {
                lemma_first_of(u, 'e', 'E', i - from);
            }
            return i;
        }
        i = i + 1;
    }
    proof {
        lemma_first_of(u, 'e', 'E', i - from);
    }
    i
}

/// Checks whether the text in `[from, to)` is an unsigned decimal.
fn check_unsigned(s: &str, from: usize, to: usize) -> (r: bool)
    requires
        from <= to <= s@.len(),
    ensures
        r == is_unsigned_numeral(s@.subrange(from as int, to as int)),
{
    let ghost u = s@.subrange(from as int, to as int);
    let start = from;
    let n = to;
    let mut dot: Option<usize> = None;
    let mut i: usize = start;
    while i < n
        invariant
            start == from,
            n == to,
            n <= s@.len(),
            start <= i <= n,
            u == s@.subrange(start as int, n as int),
            forall|j: int|
                start <= j < i ==> is_digit(#[trigger] s@[j]) || (s@[j] == '.' && dot == Some(
                    j as usize,
                )),
            dot matches Some(d) ==> start <= d < i && s@[d as int] == '.',
        decreases n - i,
    {
        let c = s.get_char(i);
        if !is_digit_char(c) {
            if c == '.' && dot.is_none() {
                dot = Some(i);
            } else {
                proof {
                    let m = i - start;
                    assert(u[m] == c);
                    assert(!is_digit(u[m]));
                    assert(!all_digits(u));
                    if c == '.' {
                        let d = dot.unwrap() - start;
                        assert(u[d] == '.' && d < m);
                        assert forall|k: int|
                            0 <= k < u.len() && u[k] == '.' && all_digits(#[trigger] u.take(k))
                                implies !all_digits(u.skip(k + 1)) by {
                            if k <= d {
                                assert(u.skip(k + 1)[m - k - 1] == u[m]);
                            } else {
                                assert(u.take(k)[d] == u[d]);
                            }
                        }
                    } else {
                        assert forall|k: int|
                            0 <= k < u.len() && u[k] == '.' && all_digits(#[trigger] u.take(k))
                                implies !all_digits(u.skip(k + 1)) by {
                            if k < m {
                                assert(u.skip(k + 1)[m - k - 1] == u[m]);
                            } else {
                                assert(u.take(k)[m] == u[m]);
                            }
                        }
                    }
                }
                return false;
            }
        }
        i = i + 1;
    }
    match dot {
        None => {
            assert(all_digits(u)) by {
                assert forall|j: int| 0 <= j < u.len() implies is_digit(#[trigger] u[j]) by {
                    assert(u[j] == s@[j + start]);
                }
            }
            proof {
                assert forall|k: int| 0 <= k < u.len() implies u[k] != '.' by {
                    assert(is_digit(u[k]));
                }
            }
            n - start > 0
        },
        Some(d) => {
            let ghost k = d - start;
            assert(u[k] == s@[d as int]);
            assert(!all_digits(u));
            assert(all_digits(u.take(k))) by {
                assert forall|j: int| 0 <= j < k implies is_digit(#[trigger] u.take(k)[j]) by {
                    assert(u.take(k)[j] == s@[j + start]);
                }
            }
            assert(all_digits(u.skip(k + 1))) by {
                assert forall|j: int| 0 <= j < u.len() - k - 1 implies is_digit(
                    #[trigger] u.skip(k + 1)[j],
                ) by {
                    assert(u.skip(k + 1)[j] == s@[j + k + 1 + start]);
                }
            }
            n - start > 1
        },
    }
}

/// Checks whether the text in `[from, len)` is an exponent.
fn check_exponent(s: &str, from: usize) -> (r: bool)
    requires
        from <= s@.len(),
    ensures
        r == is_exponent(s@.skip(from as int)),
{
    let n = s.unicode_len();
    let ghost x = s@.skip(from as int);
    let mut i: usize = from;
    if i < n {
        let c = s.get_char(i);
        if c == '+' || c == '-' {
            i = i + 1;
        }
    }
    assert(unsigned_part(x) =~= s@.subrange(i as int, n as int));
    if i == n {
        return false;
    }
    let first = i;
    while i < n
        invariant
            first <= i <= n,
            n == s@.len(),
            x == s@.skip(from as int),
            unsigned_part(x) == s@.subrange(first as int, n as int),
            forall|j: int| first <= j < i ==> is_digit(#[trigger] s@[j]),
        decreases n - i,
    {
        if !is_digit_char(s.get_char(i)) {
            assert(unsigned_part(x)[i - first] == s@[i as int]);
            return false;
        }
        i = i + 1;
    }
    assert forall|j: int| 0 <= j < unsigned_part(x).len() implies is_digit(
        #[trigger] unsigned_part(x)[j],
    ) by {
        assert(unsigned_part(x)[j] == s@[j + first]);
    }
    true
}

/// The length of a leading sign of the text: 1 for `+` or `-`, else 0.
fn sign_len(s: &str) -> (r: usize)
    ensures
        r <= s@.len(),
        r == (if has_sign(s@) {
            1usize
        } else {
            0usize
        }),
        unsigned_part(s@) == s@.skip(r as int),
{
    let n = s.unicode_len();
    if n > 0 {
        let c = s.get_char(0);
        if c == '+' || c == '-' {
            assert(s@.drop_first() =~= s@.skip(1));
            return 1;
        }
    }
    assert(s@ =~= s@.skip(0));
    0
}

/// Checks whether the text is a numeral.
pub fn check_numeral(s: &str) -> (r: bool)
    ensures
        r == is_numeral(s@),
{
    let n = s.unicode_len();
    let start = sign_len(s);
    let ghost u = unsigned_part(s@);
    let e = find_exp_mark(s, start, n);
    assert(u =~= s@.subrange(start as int, n as int));
    assert(mantissa(u) =~= s@.subrange(start as int, e as int));
    if !check_unsigned(s, start, e) {
        return false;
    }
    if e == n {
        return true;
    }
    assert(exponent_text(u) =~= s@.skip(e + 1));
    check_exponent(s, e + 1)
}

/// Appending a digit to a run multiplies its value by ten and adds the digit.
proof fn lemma_digits_value_step(t: Seq<char>, j: int)
    requires
        0 <= j < t.len(),
    ensures
        digits_value(t.take(j + 1)) == digits_value(t.take(j)) * 10 + digit_value(t[j]),
{
    assert(t.take(j + 1).drop_last() =~= t.take(j));
}

/// In an unsigned decimal every character but the point is a digit, and the
/// point, if any, stands at `point_pos`.
proof fn lemma_mantissa_shape(m: Seq<char>)
    requires
        is_unsigned_numeral(m),
    ensures
        0 <= point_pos(m) <= m.len(),
        point_pos(m) < m.len() ==> m[point_pos(m)] == '.',
        forall|k: int| 0 <= k < m.len() && k != point_pos(m) ==> is_digit(#[trigger] m[k]),
        all_digits(mantissa_digits(m)),
        mantissa_digits(m).len() + (if point_pos(m) < m.len() { 1int } else { 0int }) == m.len(),
{
    if m.len() > 0 && all_digits(m) {
        assert forall|j: int| 0 <= j < m.len() implies m[j] != '.' by {
            assert(is_digit(m[j]));
        }
        lemma_first_of(m, '.', '.', m.len() as int);
    } else {
        let k = choose|k: int|
            0 <= k < m.len() && m.len() > 1 && m[k] == '.' && all_digits(#[trigger] m.take(k))
                && all_digits(m.skip(k + 1));
        assert forall|j: int| 0 <= j < k implies m[j] != '.' by {
            assert(m.take(k)[j] == m[j]);
        }
        lemma_first_of(m, '.', '.', k);
        assert forall|j: int| 0 <= j < m.len() && j != k implies is_digit(#[trigger] m[j]) by {
            if j < k {
                assert(m.take(k)[j] == m[j]);
            } else {
                assert(m.skip(k + 1)[j - k - 1] == m[j]);
            }
        }
        let d = mantissa_digits(m);
        assert forall|j: int| 0 <= j < d.len() implies is_digit(#[trigger] d[j]) by {
            if j < k {
                assert(d[j] == m[j]);
            } else {
                assert(d[j] == m[j + 1]);
            }
        }
    }
}

/// Powers of ten are positive.
proof fn lemma_pow10_positive(k: nat)
    ensures
        pow10(k) >= 1,
    decreases k,
{
    if k > 0 {
        lemma_pow10_positive((k - 1) as nat);
    }
}

/// Powers of ten grow with the exponent.
proof fn lemma_pow10_monotonic(a: nat, b: nat)
    requires
        a <= b,
    ensures
        pow10(a) <= pow10(b),
    decreases b,
{
    if a < b {
        lemma_pow10_monotonic(a, (b - 1) as nat);
        lemma_pow10_positive((b - 1) as nat);
    }
}

/// Ten to the twentieth exceeds every `usize`.
proof fn lemma_pow10_twenty()
    ensures
        pow10(20) > usize::MAX,
{
    reveal_with_fuel(pow10, 21);
    assert(usize::MAX <= 0xffff_ffff_ffff_ffff);
}

/// A run of `k` digits denotes less than ten to the `k`.
proof fn lemma_digits_value_bound(t: Seq<char>)
    requires
        all_digits(t),
    ensures
        digits_value(t) < pow10(t.len()),
    decreases t.len(),
{
    if t.len() > 0 {
        let f = t.drop_last();
        assert(all_digits(f)) by {
            assert forall|j: int| 0 <= j < f.len() implies is_digit(#[trigger] f[j]) by {
                assert(f[j] == t[j]);
            }
        }
        lemma_digits_value_bound(f);
        assert(is_digit(t[t.len() - 1]));
        assert(digits_value(t) == digits_value(f) * 10 + digit_value(t.last()));
        assert(digits_value(f) * 10 + digit_value(t.last()) < pow10(f.len()) * 10) by (nonlinear_arith)
            requires
                digits_value(f) < pow10(f.len()),
                digit_value(t.last()) < 10,
        ;
    }
}

/// Dividing the value of a run of digits by ten to the `k` drops its last `k`
/// digits.
proof fn lemma_digits_value_div(t: Seq<char>, k: nat)
    requires
        all_digits(t),
        k <= t.len(),
    ensures
        digits_value(t) / pow10(k) == digits_value(t.take(t.len() - k)),
    decreases k,
{
    if k == 0 {
        assert(t.take(t.len() as int) =~= t);
        assert(pow10(0) == 1);
    } else {
        let f = t.drop_last();
        assert(all_digits(f)) by {
            assert forall|j: int| 0 <= j < f.len() implies is_digit(#[trigger] f[j]) by {
                assert(f[j] == t[j]);
            }
        }
        assert(is_digit(t[t.len() - 1]));
        lemma_fundamental_div_mod_converse(
            digits_value(t) as int,
            10,
            digits_value(f) as int,
            digit_value(t.last()) as int,
        );
        lemma_pow10_positive((k - 1) as nat);
        lemma_div_denominator(digits_value(t) as int, 10, pow10((k - 1) as nat) as int);
        lemma_digits_value_div(f, (k - 1) as nat);
        assert(digits_value(t) / 10 == digits_value(f));
        assert(pow10(k) == 10 * pow10((k - 1) as nat));
        assert(digits_value(t) / pow10(k) == digits_value(f) / pow10((k - 1) as nat));
        assert(f.take(f.len() - (k - 1)) =~= t.take(t.len() - k));
    }
}

/// The value of the first `q` digits, and whether it exceeds `usize::MAX`.
fn prefix_value(digits: &Vec<char>, q: usize) -> (r: (usize, bool))
    requires
        all_digits(digits@),
        q <= digits@.len(),
    ensures
        r.1 == (digits_value(digits@.take(q as int)) > usize::MAX),
        !r.1 ==> r.0 == digits_value(digits@.take(q as int)),
{
    let mut v: usize = 0;
    let mut overflow = false;
    let mut i: usize = 0;
    assert(digits@.take(0) =~= Seq::<char>::empty());
    while i < q
        invariant
            all_digits(digits@),
            q <= digits@.len(),
            i <= q,
            overflow == (digits_value(digits@.take(i as int)) > usize::MAX),
            !overflow ==> v == digits_value(digits@.take(i as int)),
        decreases q - i,
    {
        let c = digits[i];
        assert(is_digit(c));
        let d = (c as u32 - '0' as u32) as usize;
        proof {
            lemma_digits_value_step(digits@, i as int);
        }
        let ghost dv = digits_value(digits@.take(i as int));
        if overflow {
            assert(dv * 10 + d > usize::MAX) by (nonlinear_arith)
                requires
                    dv > usize::MAX,
            ;
        } else if v > (usize::MAX - d) / 10 {
            assert(dv * 10 + d > usize::MAX) by (nonlinear_arith)
                requires
                    v > (usize::MAX - d) / 10,
                    v == dv,
                    d <= 9,
            ;
            overflow = true;
        } else {
            assert(v * 10 + d <= usize::MAX) by (nonlinear_arith)
                requires
                    v <= (usize::MAX - d) / 10,
                    d <= 9,
            ;
            v = v * 10 + d;
        }
        i = i + 1;
    }
    (v, overflow)
}

/// The bound above which an exponent is held as large: any exponent beyond
/// it moves every nonzero significand out of `usize` range or below 1.
const EXP_CAP: u128 = 0x1_0000_0000_0000_0000_0000;

/// The digits of the mantissa in `[from, to)`, without its point, and the
/// number of digits after the point.
fn split_mantissa(s: &str, from: usize, to: usize) -> (r: (Vec<char>, usize))
    requires
        from <= to <= s@.len(),
        is_unsigned_numeral(s@.subrange(from as int, to as int)),
    ensures
        r.0@ == mantissa_digits(s@.subrange(from as int, to as int)),
        r.1 == fraction_len(s@.subrange(from as int, to as int)),
        all_digits(r.0@),
        r.1 <= r.0@.len(),
{
    let ghost m = s@.subrange(from as int, to as int);
    proof {
        lemma_mantissa_shape(m);
    }
    let ghost pp = point_pos(m);
    let ml = to - from;
    let mut digits: Vec<char> = Vec::new();
    let mut point: Option<usize> = None;
    let mut j: usize = 0;
    while j < ml
        invariant
            ml == m.len(),
            m == s@.subrange(from as int, to as int),
            from <= to <= s@.len(),
            ml == to - from,
            pp == point_pos(m),
            0 <= pp <= m.len(),
            pp < m.len() ==> m[pp] == '.',
            forall|k: int| 0 <= k < m.len() && k != pp ==> is_digit(#[trigger] m[k]),
            j <= ml,
            digits@ == (if j <= pp {
                m.take(j as int)
            } else {
                m.take(pp) + m.subrange(pp + 1, j as int)
            }),
            point == (if pp < j {
                Some(pp as usize)
            } else {
                None::<usize>
            }),
        decreases ml - j,
    {
        let c = s.get_char(from + j);
        assert(c == m[j as int]);
        if is_digit_char(c) {
            digits.push(c);
            proof {
                if j < pp {
                    assert(digits@ =~= m.take(j + 1));
                } else {
                    assert(digits@ =~= m.take(pp) + m.subrange(pp + 1, j + 1));
                }
            }
        } else {
            point = Some(j);
            assert(m.subrange(pp + 1, j + 1) =~= Seq::<char>::empty());
            assert(digits@ =~= m.take(pp) + m.subrange(pp + 1, j + 1));
        }
        j = j + 1;
    }
    assert(digits@ =~= mantissa_digits(m));
    let frac: usize = match point {
        Some(p) => ml - p - 1,
        None => 0,
    };
    (digits, frac)
}

/// The exponent after the mark at `mark`: whether it is negative, and its
/// magnitude unless that exceeds `EXP_CAP`, which the last part tells.
fn read_exponent(s: &str, mark: usize) -> (r: (bool, u128, bool))
    requires
        mark < s@.len(),
        is_exponent(s@.skip(mark + 1)),
    ensures
        r.0 == (s@.skip(mark + 1).len() > 0 && s@.skip(mark + 1)[0] == '-'),
        r.2 == (digits_value(unsigned_part(s@.skip(mark + 1))) > EXP_CAP),
        !r.2 ==> r.1 == digits_value(unsigned_part(s@.skip(mark + 1))),
{
    let n = s.unicode_len();
    let ghost x = s@.skip(mark + 1);
    let mut exp_negative = false;
    let mut ev: u128 = 0;
    let mut big = false;
    let mut i: usize = mark + 1;
    if i < n {
        let c = s.get_char(i);
        if c == '+' || c == '-' {
            exp_negative = c == '-';
            i = i + 1;
        }
    }
    let first = i;
    let ghost xd = unsigned_part(x);
    assert(xd =~= s@.subrange(first as int, n as int));
    assert(xd.take(0) =~= Seq::<char>::empty());
    while i < n
        invariant
            first <= i <= n,
            n == s@.len(),
            xd == s@.subrange(first as int, n as int),
            all_digits(xd),
            big == (digits_value(xd.take(i - first)) > EXP_CAP),
            !big ==> ev == digits_value(xd.take(i - first)),
        decreases n - i,
    {
        let c = s.get_char(i);
        assert(c == xd[i - first]);
        assert(is_digit(c));
        let d = (c as u32 - '0' as u32) as u128;
        proof {
            lemma_digits_value_step(xd, i - first);
        }
        let ghost dv = digits_value(xd.take(i - first));
        if big {
            assert(dv * 10 + d > EXP_CAP) by (nonlinear_arith)
                requires
                    dv > EXP_CAP,
            ;
        } else if ev > (EXP_CAP - d) / 10 {
            assert(dv * 10 + d > EXP_CAP) by (nonlinear_arith)
                requires
                    ev > (EXP_CAP - d) / 10,
                    ev == dv,
                    d <= 9,
            ;
            big = true;
        } else {
            assert(ev * 10 + d <= EXP_CAP) by (nonlinear_arith)
                requires
                    ev <= (EXP_CAP - d) / 10,
                    d <= 9,
            ;
            ev = ev * 10 + d;
        }
        i = i + 1;
    }
    assert(xd.take(i - first) =~= xd);
    (exp_negative, ev, big)
}

/// The significand times ten to the `sc`, truncated toward zero.
pub open spec fn truncate_scaled(v: nat, sc: int) -> nat {
    if sc >= 0 {
        v * pow10(sc as nat)
    } else {
        v / pow10((-sc) as nat)
    }
}

/// The digits' value scaled by ten to the `sc`, truncated, if it fits in
/// `usize`. The scale is `±ev - frac`, or beyond `EXP_CAP` when `big`.
fn scaled_value(
    digits: &Vec<char>,
    frac: usize,
    exp_negative: bool,
    ev: u128,
    big: bool,
    Ghost(sc): Ghost<int>,
) -> (r: Option<usize>)
    requires
        all_digits(digits@),
        frac <= digits@.len(),
        big ==> (if exp_negative {
            sc < -(EXP_CAP as int) - frac
        } else {
            sc > EXP_CAP as int - frac
        }),
        !big ==> sc == (if exp_negative {
            -(ev as int)
        } else {
            ev as int
        }) - frac,
        !big ==> ev <= EXP_CAP,
    ensures
        r matches Some(x) ==> truncate_scaled(digits_value(digits@), sc) == x,
        r is None ==> truncate_scaled(digits_value(digits@), sc) > usize::MAX,
{
    let dl = digits.len();
    let ghost big_v = digits_value(digits@);
    proof {
        lemma_digits_value_bound(digits@);
    }
    let (v, over) = prefix_value(digits, dl);
    assert(digits@.take(dl as int) =~= digits@);
    assert(frac < EXP_CAP);
    if big && !exp_negative {
        assert(sc >= 0);
        if !over && v == 0 {
            assert(big_v == 0);
            assert(truncate_scaled(big_v, sc) == 0 * pow10(sc as nat));
            return Some(0);
        }
        proof {
            lemma_pow10_monotonic(20, sc as nat);
            lemma_pow10_twenty();
            assert(big_v * pow10(sc as nat) >= pow10(sc as nat)) by (nonlinear_arith)
                requires
                    big_v >= 1,
            ;
        }
        return None;
    }
    if big || (exp_negative && ev + (frac as u128) >= dl as u128) {
        assert(-sc >= dl);
        proof {
            if sc >= 0 {
                assert(digits@.len() == 0);
                assert(big_v == 0);
                assert(truncate_scaled(big_v, sc) == 0 * pow10(sc as nat));
            } else {
                lemma_pow10_monotonic(dl as nat, (-sc) as nat);
                lemma_pow10_positive((-sc) as nat);
                assert(big_v / pow10((-sc) as nat) == 0) by (nonlinear_arith)
                    requires
                        big_v < pow10((-sc) as nat),
                ;
            }
        }
        return Some(0);
    }
    let sh: i128 = if exp_negative {
        -(ev as i128)
    } else {
        ev as i128
    } - frac as i128;
    assert(sh == sc);
    if sh < 0 {
        assert(-sh <= dl);
        let k = (-sh) as usize;
        proof {
            lemma_digits_value_div(digits@, k as nat);
        }
        let (w, over_k) = prefix_value(digits, dl - k);
        return if over_k {
            None
        } else {
            Some(w)
        };
    }
    if over {
        proof {
            lemma_pow10_positive(sc as nat);
            assert(big_v * pow10(sc as nat) >= big_v) by (nonlinear_arith)
                requires
                    pow10(sc as nat) >= 1,
            ;
        }
        return None;
    }
    if v == 0 {
        assert(truncate_scaled(big_v, sc) == 0 * pow10(sc as nat));
        return Some(0);
    }
    let mut w: usize = v;
    let mut c: u128 = 0;
    let mut over2 = false;
    assert(pow10(0) == 1);
    while c < sh as u128 && !over2
        invariant
            0 <= sh,
            sh == sc,
            c <= sh,
            v == big_v,
            !over2 ==> w == big_v * pow10(c as nat),
            over2 ==> big_v * pow10(sh as nat) > usize::MAX,
        decreases sh - c + (if over2 {
            0int
        } else {
            1int
        }),
    {
        assert(pow10((c + 1) as nat) == 10 * pow10(c as nat));
        if w > usize::MAX / 10 {
            over2 = true;
            proof {
                lemma_pow10_monotonic((c + 1) as nat, sh as nat);
                assert(big_v * pow10((c + 1) as nat) == w * 10) by (nonlinear_arith)
                    requires
                        w == big_v * pow10(c as nat),
                        pow10((c + 1) as nat) == 10 * pow10(c as nat),
                ;
                assert(big_v * pow10(sh as nat) >= big_v * pow10((c + 1) as nat))
                    by (nonlinear_arith)
                    requires
                        pow10(sh as nat) >= pow10((c + 1) as nat),
                ;
            }
        } else {
            proof {
                assert(big_v * pow10((c + 1) as nat) == w * 10) by (nonlinear_arith)
                    requires
                        w == big_v * pow10(c as nat),
                        pow10((c + 1) as nat) == 10 * pow10(c as nat),
                ;
            }
            w = w * 10;
            c = c + 1;
        }
    }
    if over2 {
        None
    } else {
        Some(w)
    }
}

/// The class label of a numeral, if it has one.
pub fn numeral_label(s: &str) -> (r: Option<usize>)
    requires
        is_numeral(s@),
    ensures
        r is Some <==> label_of(s@) is Some,
        r matches Some(v) ==> label_of(s@) == Some(v as nat),
{
    let n = s.unicode_len();
    let start = sign_len(s);
    let negative = start == 1 && s.get_char(0) == '-';
    let ghost u = unsigned_part(s@);
    let e = find_exp_mark(s, start, n);
    assert(u =~= s@.subrange(start as int, n as int));
    assert(mantissa(u) =~= s@.subrange(start as int, e as int));
    let (digits, frac) = split_mantissa(s, start, e);
    let mut exp_negative = false;
    let mut ev: u128 = 0;
    let mut big = false;
    if e < n {
        assert(exponent_text(u) =~= s@.skip(e + 1));
        let (a, b, c) = read_exponent(s, e);
        exp_negative = a;
        ev = b;
        big = c;
    }
    let ghost ex = exponent_value(u);
    let ghost sc = scale(s@);
    let t = scaled_value(&digits, frac, exp_negative, ev, big, Ghost(sc));
    assert(truncated_magnitude(s@) == truncate_scaled(digits_value(digits@), sc));
    if negative {
        match t {
            Some(x) => {
                if x == 0 {
                    Some(0)
                } else {
                    None
                }
            },
            None => None,
        }
    } else {
        t
    }
}

/// The one-character text of a digit value.
fn digit_text(d: usize) -> (r: &'static str)
    requires
        d < 10,
    ensures
        r@ == seq![digit_char(d as nat)],
{
    proof {
        reveal_strlit("0");
        reveal_strlit("1");
        reveal_strlit("2");
        reveal_strlit("3");
        reveal_strlit("4");
        reveal_strlit("5");
        reveal_strlit("6");
        reveal_strlit("7");
        reveal_strlit("8");
        reveal_strlit("9");
    }
    let r = if d == 0 {
        "0"
    } else if d == 1 {
        "1"
    } else if d == 2 {
        "2"
    } else if d == 3 {
        "3"
    } else if d == 4 {
        "4"
    } else if d == 5 {
        "5"
    } else if d == 6 {
        "6"
    } else if d == 7 {
        "7"
    } else if d == 8 {
        "8"
    } else {
        "9"
    };
    assert(r@ =~= seq![digit_char(d as nat)]);
    r
}

/// The decimal text of `n`.
pub fn format_decimal(n: usize) -> (r: String)
    ensures
        r@ == decimal(n as nat),
    decreases n,
{
    if n < 10 {
        String::from_str(digit_text(n))
    } else {
        let mut r = format_decimal(n / 10);
        r.append(digit_text(n % 10));
        r
    }
}

/// The decimal text of a number is a numeral whose label is the number.
pub proof fn lemma_decimal_label(n: nat)
    requires
        n <= usize::MAX,
    ensures
        is_numeral(decimal(n)),
        label_of(decimal(n)) == Some(n),
{
    lemma_decimal_digits(n);
    let t = decimal(n);
    assert(unsigned_part(t) == t);
    assert forall|k: int| 0 <= k < t.len() implies t[k] != '.' && t[k] != 'e' && t[k] != 'E' by {
        assert(is_digit(t[k]));
    }
    lemma_first_of(t, 'e', 'E', t.len() as int);
    assert(mantissa(t) =~= t);
    lemma_first_of(t, '.', '.', t.len() as int);
    assert(mantissa_digits(t) == t);
    assert(!has_exponent(t));
    assert(scale(t) == 0);
    assert(significand(t) == n);
    assert(pow10(0) == 1);
    assert(truncate_scaled(n, 0) == n * pow10(0));
    assert(truncated_magnitude(t) == n);
}

/// The digit character of a value below ten has that value.
proof fn lemma_digit_char_value(d: nat)
    requires
        d < 10,
    ensures
        is_digit(digit_char(d)),
        digit_value(digit_char(d)) == d,
{
}

/// The decimal text of a number is a nonempty run of digits that denotes it.
pub proof fn lemma_decimal_digits(n: nat)
    ensures
        decimal(n).len() > 0,
        all_digits(decimal(n)),
        digits_value(decimal(n)) == n,
        decimal(n)[0] != '-' && decimal(n)[0] != '+',
    decreases n,
{
    lemma_digit_char_value(n % 10);
    if n < 10 {
        assert(decimal(n).drop_last() =~= Seq::<char>::empty());
        assert(digits_value(Seq::<char>::empty()) == 0);
    } else {
        lemma_decimal_digits(n / 10);
        let t = decimal(n);
        assert(t.drop_last() =~= decimal(n / 10));
        assert(t.last() == digit_char(n % 10));
        assert((n / 10) * 10 + n % 10 == n);
        assert(t[0] == decimal(n / 10)[0]);
        assert forall|i: int| 0 <= i < t.len() implies is_digit(#[trigger] t[i]) by {
            if i < t.len() - 1 {
                assert(t[i] == decimal(n / 10)[i]);
            }
        }
    }
}

} // verus!
