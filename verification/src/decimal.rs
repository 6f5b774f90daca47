//! Fixed-point decimals with eighteen fractional digits.
//!
//! `Decimal` holds, as plain values, exactly what `injective_math::FPDecimal`
//! holds: a 256-bit magnitude (four little-endian 64-bit limbs) scaled by
//! 10^18, and a sign byte (`1` for non-negative, `0` for negative). The
//! arithmetic itself is done by `FPDecimal`; the trusted items below state
//! what each of its operations computes on these plain values.
use injective_math::FPDecimal;
use primitive_types::{U256, U512};
use vstd::prelude::*;

verus! {

/// 2^64.
pub open spec fn pow64() -> int {
    18446744073709551616int
}

/// 2^128.
pub open spec fn pow128() -> int {
    340282366920938463463374607431768211456int
}

/// 2^192.
pub open spec fn pow192() -> int {
    6277101735386680763835789423207666416102355444464034512896int
}

/// 2^256, the first magnitude a 256-bit integer cannot hold.
pub open spec fn pow256() -> int {
    115792089237316195423570985008687907853269984665640564039457584007913129639936int
}

/// The scale of a fixed-point value: 10^18 stands for one.
pub open spec fn fp_one() -> int {
    1_000_000_000_000_000_000int
}

/// The integer held by four little-endian 64-bit limbs.
pub open spec fn limbs_value(l: [u64; 4]) -> int {
    l[0] as int + l[1] as int * pow64() + l[2] as int * pow128() + l[3] as int * pow192()
}

/// The mathematical content of a fixed-point value: its scaled magnitude and
/// its sign byte.
pub struct Fp {
    pub num: int,
    pub sign: i8,
}

/// A fixed-point decimal, laid out as `FPDecimal` is.
#[derive(Clone, Copy, Debug)]
pub struct Decimal {
    /// The scaled magnitude, least significant limb first.
    pub limbs: [u64; 4],
    /// `1` for non-negative values, `0` for negative ones.
    pub sign: i8,
}

impl View for Decimal {
    type V = Fp;

    open spec fn view(&self) -> Fp {
        Fp { num: limbs_value(self.limbs), sign: self.sign }
    }
}

/// The value zero as `FPDecimal::ZERO` holds it.
pub open spec fn fp_zero() -> Fp {
    Fp { num: 0, sign: 1 }
}

/// `|k|` for an integer `k`.
pub open spec fn abs_int(k: int) -> int {
    if k < 0 {
        -k
    } else {
        k
    }
}

/// The sign byte that `FPDecimal::from(k)` gives an `i128`.
pub open spec fn int_sign(k: int) -> i8 {
    if k < 0 {
        0
    } else {
        1
    }
}

/// Whether `x.mul(k)` stays within 256 bits (it panics otherwise).
pub open spec fn fp_mul_int_fits(x: Fp, k: int) -> bool {
    x.num * abs_int(k) < pow256()
}

/// What `FPDecimal::mul(&self, k: i128)` returns: the magnitude times `|k|`,
/// negative exactly when the signs of the two factors differ.
pub open spec fn fp_mul_int(x: Fp, k: int) -> Fp {
    Fp { num: x.num * abs_int(k), sign: if x.sign != int_sign(k) { 0 } else { 1 } }
}

/// Whether `x / y` returns instead of panicking: `y` is one, or `y` is not zero
/// and the scaled quotient fits in 256 bits.
pub open spec fn fp_div_defined(x: Fp, y: Fp) -> bool {
    (y.num == fp_one() && y.sign == 1) || (y.num != 0 && (fp_one() * x.num) / y.num < pow256())
}

/// What `x / y` returns for two `FPDecimal`s: `x` itself when `y` is one;
/// otherwise the floor of `10^18 * |x| / |y|`, which is zero with sign `1`
/// when it is zero, and whose sign byte is `1 ^ x.sign ^ y.sign` otherwise.
pub open spec fn fp_div(x: Fp, y: Fp) -> Fp {
    if y.num == fp_one() && y.sign == 1 {
        x
    } else {
        let q = (fp_one() * x.num) / y.num;
        if q == 0 {
            fp_zero()
        } else {
            Fp { num: q, sign: 1i8 ^ x.sign ^ y.sign }
        }
    }
}

/// For sign bytes `0` or `1`, a quotient's sign byte `1 ^ a ^ b` is `1`
/// where the two agree and `0` where they differ.
pub proof fn lemma_quotient_sign(a: i8, b: i8)
    requires
        a == 0 || a == 1,
        b == 0 || b == 1,
    ensures
        (1i8 ^ a ^ b) == (if a == b { 1i8 } else { 0i8 }),
{
    assert((1i8 ^ a ^ b) == (if a == b { 1i8 } else { 0i8 })) by (bit_vector)
        requires
            a == 0 || a == 1,
            b == 0 || b == 1,
    ;
}

/// What `x > y` answers for two `FPDecimal`s.
pub open spec fn fp_gt(x: Fp, y: Fp) -> bool {
    if x.sign != y.sign {
        x.sign > y.sign
    } else if x.sign == 0 {
        x.num < y.num
    } else {
        x.num > y.num
    }
}

/// What `x <= y` answers for two `FPDecimal`s.
pub open spec fn fp_le(x: Fp, y: Fp) -> bool {
    if x.sign != y.sign {
        x.sign < y.sign
    } else if x.sign == 0 {
        x.num >= y.num
    } else {
        x.num <= y.num
    }
}


/// Every character is a decimal digit.
pub open spec fn all_digits(s: Seq<char>) -> bool {
    forall|i: int| 0 <= i < s.len() ==> '0' <= #[trigger] s[i] <= '9'
}

/// The value of a string of decimal digits.
pub open spec fn digits_value(s: Seq<char>) -> int
    decreases s.len(),
{
    if s.len() == 0 {
        0
    } else {
        digits_value(s.drop_last()) * 10 + (s.last() as int - 48)
    }
}

/// 10^n.
pub open spec fn pow10(n: nat) -> int
    decreases n,
{
    if n == 0 {
        1
    } else {
        10 * pow10((n - 1) as nat)
    }
}

/// How many `-` the string starts with.
pub open spec fn leading_minus(s: Seq<char>) -> int
    decreases s.len(),
{
    if s.len() > 0 && s[0] == '-' {
        1 + leading_minus(s.drop_first())
    } else {
        0
    }
}

/// The first `.` of a string that holds one.
pub open spec fn first_dot(t: Seq<char>) -> int {
    choose|i: int| 0 <= i < t.len() && t[i] == '.' && forall|j: int| 0 <= j < i ==> t[j] != '.'
}

/// What `FPDecimal::from_str` gives for a string, as `(magnitude, sign)`,
/// or `None` where it returns an error. With the leading `-` signs taken
/// off, the string must be an integer part, or an integer part, a `.` and a
/// fraction of at most eighteen digits, each part a run of decimal digits
/// (an empty one counts as zero) whose value is under 2^256. The magnitude
/// is the number scaled by 10^18. The sign byte is `0` for a string that
/// starts with `-`, `1` otherwise, and `1` for an integer part alone that
/// is zero.
pub open spec fn fp_parse(s: Seq<char>) -> Option<(int, i8)> {
    let neg = s.len() > 0 && s[0] == '-';
    let t = s.subrange(leading_minus(s), s.len() as int);
    if !t.contains('.') {
        let v = digits_value(t);
        if all_digits(t) && v < pow256() {
            Some((v * fp_one(), if neg && v != 0 { 0i8 } else { 1i8 }))
        } else {
            None
        }
    } else {
        let i = first_dot(t);
        let p0 = t.subrange(0, i);
        let p1 = t.subrange(i + 1, t.len() as int);
        if !p1.contains('.') && all_digits(p0) && digits_value(p0) < pow256() && all_digits(p1) && p1.len() <= 18 {
            Some(
                (
                    digits_value(p0) * fp_one() + digits_value(p1) * pow10((18 - p1.len()) as nat),
                    if neg { 0i8 } else { 1i8 },
                ),
            )
        } else {
            None
        }
    }
}

/// Whether `FPDecimal::from_str` panics on `s`. With the leading `-` signs
/// taken off, the string is an integer part, or an integer part, a `.` and
/// a fraction of at most eighteen digits; where each part parses into 256
/// bits, the source computes `integer * 10^18 (+ fraction * 10^(18 - its
/// digits))` in 256-bit arithmetic, which panics where it reaches 2^256.
pub open spec fn from_str_overflows(s: Seq<char>) -> bool {
    let t = s.subrange(leading_minus(s), s.len() as int);
    if !t.contains('.') {
        all_digits(t) && digits_value(t) < pow256() && digits_value(t) * fp_one() >= pow256()
    } else {
        let i = first_dot(t);
        let p0 = t.subrange(0, i);
        let p1 = t.subrange(i + 1, t.len() as int);
        &&& !p1.contains('.')
        &&& all_digits(p0)
        &&& digits_value(p0) < pow256()
        &&& all_digits(p1)
        &&& p1.len() <= 18
        &&& digits_value(p0) * fp_one() + digits_value(p1) * pow10((18 - p1.len()) as nat) >= pow256()
    }
}

/// Calls `FPDecimal::from_str`. Its contract claims what the source
/// computes, `fp_parse` of the same characters, and that the sign byte is
/// `0` or `1`. The call panics on the strings of `from_str_overflows`,
/// which `requires` leaves out.
#[verifier::external_body]
pub(crate) fn fp_from_str(s: &str) -> (r: Option<Decimal>)
    requires
        !from_str_overflows(s@),
    ensures
        r is None <==> fp_parse(s@) is None,
        r matches Some(d) ==> fp_parse(s@) == Some((d@.num, d@.sign)),
        r matches Some(d) ==> d.sign == 0 || d.sign == 1,
{
    match <FPDecimal as std::str::FromStr>::from_str(s) {
        Ok(f) => Some(Decimal { limbs: f.num.0, sign: f.sign }),
        Err(_) => None,
    }
}

/// Calls `U256::from_dec_str`. Its contract claims what the source computes:
/// the value of a string of decimal digits, and an error where a character
/// is not a digit or the value reaches 2^256.
#[verifier::external_body]
fn u256_from_dec_str(s: &str) -> (r: Option<(u64, u64, u64, u64)>)
    ensures
        r is Some <==> (all_digits(s@) && digits_value(s@) < pow256()),
        r matches Some(l) ==> limbs_value([l.0, l.1, l.2, l.3]) == digits_value(s@),
{
    match U256::from_dec_str(s) {
        Ok(v) => Some((v.0[0], v.0[1], v.0[2], v.0[3])),
        Err(_) => None,
    }
}

proof fn lemma_leading_minus(s: Seq<char>, k: int)
    requires
        0 <= k <= s.len(),
        forall|j: int| 0 <= j < k ==> s[j] == '-',
        k == s.len() || s[k] != '-',
    ensures
        leading_minus(s) == k,
    decreases k,
{
    if k > 0 {
        let d = s.drop_first();
        assert forall|j: int| 0 <= j < k - 1 implies d[j] == '-' by {
            assert(d[j] == s[j + 1]);
        }
        if k - 1 < d.len() {
            assert(d[k - 1] == s[k]);
        }
        lemma_leading_minus(d, k - 1);
    }
}

proof fn lemma_digits_value_bound(s: Seq<char>)
    requires
        all_digits(s),
    ensures
        0 <= digits_value(s) < pow10(s.len()),
    decreases s.len(),
{
    if s.len() > 0 {
        let d = s.drop_last();
        assert(all_digits(d)) by {
            assert forall|i: int| 0 <= i < d.len() implies '0' <= #[trigger] d[i] <= '9' by {
                assert(d[i] == s[i]);
            }
        }
        lemma_digits_value_bound(d);
        assert('0' <= s[s.len() - 1] <= '9');
    }
}

/// The limbs of a 256-bit value are the only ones for it.
proof fn lemma_limbs_unique(a: [u64; 4], b: [u64; 4])
    requires
        limbs_value(a) == limbs_value(b),
    ensures
        a == b,
{
    let p = pow64();
    let p2 = pow128();
    let p3 = pow192();
    assert(p2 == p * p);
    assert(p3 == p * p2);
    let (a0, a1, a2, a3) = (a[0] as int, a[1] as int, a[2] as int, a[3] as int);
    let (b0, b1, b2, b3) = (b[0] as int, b[1] as int, b[2] as int, b[3] as int);
    let xa3 = a3;
    let xa2 = a2 + p * xa3;
    let xa1 = a1 + p * xa2;
    let xb3 = b3;
    let xb2 = b2 + p * xb3;
    let xb1 = b1 + p * xb2;
    assert(a0 + a1 * p + a2 * p2 + a3 * p3 == a0 + p * xa1) by (nonlinear_arith)
        requires
            xa2 == a2 + p * xa3,
            xa1 == a1 + p * xa2,
            xa3 == a3,
            p2 == p * p,
            p3 == p * p2,
    ;
    assert(b0 + b1 * p + b2 * p2 + b3 * p3 == b0 + p * xb1) by (nonlinear_arith)
        requires
            xb2 == b2 + p * xb3,
            xb1 == b1 + p * xb2,
            xb3 == b3,
            p2 == p * p,
            p3 == p * p2,
    ;
    let v = limbs_value(a);
    assert(xa1 * p == p * xa1 && xb1 * p == p * xb1 && xa2 * p == p * xa2 && xb2 * p == p * xb2 && xa3 * p == p
        * xa3 && xb3 * p == p * xb3) by (nonlinear_arith);
    vstd::arithmetic::div_mod::lemma_fundamental_div_mod_converse(v, p, xa1, a0);
    vstd::arithmetic::div_mod::lemma_fundamental_div_mod_converse(v, p, xb1, b0);
    vstd::arithmetic::div_mod::lemma_fundamental_div_mod_converse(xa1, p, xa2, a1);
    vstd::arithmetic::div_mod::lemma_fundamental_div_mod_converse(xa1, p, xb2, b1);
    vstd::arithmetic::div_mod::lemma_fundamental_div_mod_converse(xa2, p, xa3, a2);
    vstd::arithmetic::div_mod::lemma_fundamental_div_mod_converse(xa2, p, xb3, b2);
    assert(a =~= b);
}

/// `v * 10^18 + f` reaches 2^256, for a fraction `f` below 10^18, exactly
/// where `v * 10^18` does, or `v` is the largest value whose product stays
/// below and `f` makes up the rest.
proof fn lemma_scaled_sum_overflow(v: int, f: int)
    requires
        0 <= v,
        0 <= f < fp_one(),
    ensures
        (v * fp_one() + f >= pow256()) <==> (v * fp_one() >= pow256() || (v
            == 115792089237316195423570985008687907853269984665640564039457int && f
            >= 584007913129639936int)),
{
    let q = 115792089237316195423570985008687907853269984665640564039457int;
    let r = 584007913129639936int;
    assert(q * fp_one() + r == pow256());
    if v > q {
        assert(v * fp_one() >= (q + 1) * fp_one()) by (nonlinear_arith)
            requires
                v >= q + 1,
                fp_one() > 0,
        ;
    } else if v < q {
        assert(v * fp_one() <= (q - 1) * fp_one()) by (nonlinear_arith)
            requires
                v <= q - 1,
                fp_one() > 0,
        ;
    }
}

/// Whether `FPDecimal::from_str` would panic on `s`.
pub fn str_overflows(s: &str) -> (r: bool)
    ensures
        r == from_str_overflows(s@),
{
    let n = s.unicode_len();
    let mut k: usize = 0;
    while k < n && s.get_char(k) == '-'
        invariant
            n == s@.len(),
            k <= n,
            forall|j: int| 0 <= j < k ==> s@[j] == '-',
        decreases n - k,
    {
        k = k + 1;
    }
    proof {
        lemma_leading_minus(s@, k as int);
    }
    let ghost t = s@.subrange(k as int, n as int);
    let mut d: usize = k;
    while d < n && s.get_char(d) != '.'
        invariant
            n == s@.len(),
            k <= d <= n,
            forall|j: int| k <= j < d ==> s@[j] != '.',
        decreases n - d,
    {
        d = d + 1;
    }
    if d == n {
        assert(!t.contains('.')) by {
            if t.contains('.') {
                let w = choose|w: int| 0 <= w < t.len() && t[w] == '.';
                assert(s@[k + w] == '.');
            }
        }
        let whole = s.substring_char(k, n);
        assert(whole@ =~= t);
        return match u256_from_dec_str(whole) {
            None => false,
            Some(l) => !u256_mul_fits([l.0, l.1, l.2, l.3], 1_000_000_000_000_000_000u128),
        };
    }
    let ghost i = (d - k) as int;
    proof {
        assert(t[i] == '.');
        assert(t.contains('.'));
        assert(forall|j: int| 0 <= j < i ==> t[j] != '.');
        let c = first_dot(t);
        assert(0 <= c < t.len() && t[c] == '.' && forall|j: int| 0 <= j < c ==> t[j] != '.');
        if c < i {
            assert(t[c] != '.');
        }
        if c > i {
            assert(t[i] != '.');
        }
        assert(first_dot(t) == i);
    }
    let ghost p1 = t.subrange(i + 1, t.len() as int);
    let mut e: usize = d + 1;
    while e < n && s.get_char(e) != '.'
        invariant
            n == s@.len(),
            d + 1 <= e <= n,
            forall|j: int| d + 1 <= j < e ==> s@[j] != '.',
        decreases n - e,
    {
        e = e + 1;
    }
    if e < n {
        assert(p1[e - d - 1] == '.');
        assert(p1.contains('.'));
        return false;
    }
    assert(!p1.contains('.')) by {
        if p1.contains('.') {
            let w = choose|w: int| 0 <= w < p1.len() && p1[w] == '.';
            assert(s@[d + 1 + w] == '.');
        }
    }
    let head = s.substring_char(k, d);
    assert(head@ =~= t.subrange(0, i));
    let v0 = match u256_from_dec_str(head) {
        None => {
            return false;
        },
        Some(l) => l,
    };
    let len1: usize = n - d - 1;
    if len1 > 18 {
        return false;
    }
    // the fraction's value
    let mut f: u64 = 0;
    let mut j: usize = 0;
    proof {
        lemma_pow10_mono(0, 18);
        assert(p1 =~= s@.subrange(d + 1, n as int));
        assert(p1.subrange(0, 0) =~= Seq::<char>::empty());
    }
    while j < len1
        invariant
            n == s@.len(),
            d + 1 + len1 == n,
            len1 <= 18,
            j <= len1,
            p1 =~= s@.subrange(d + 1, n as int),
            t == s@.subrange(k as int, n as int),
            k == leading_minus(s@),
            i == d - k,
            t.contains('.'),
            first_dot(t) == i,
            p1 == t.subrange(i + 1, t.len() as int),
            all_digits(p1.subrange(0, j as int)),
            f == digits_value(p1.subrange(0, j as int)),
            f < pow10(j as nat),
            pow10(j as nat) <= pow10(18),
            pow10(18) == 1_000_000_000_000_000_000,
        decreases len1 - j,
    {
        let c = s.get_char(d + 1 + j);
        if !('0' <= c && c <= '9') {
            assert(!all_digits(p1)) by {
                assert(p1[j as int] == c);
            }
            return false;
        }
        assert(p1.subrange(0, j + 1).drop_last() =~= p1.subrange(0, j as int));
        assert(p1.subrange(0, j + 1).last() == c);
        assert(all_digits(p1.subrange(0, j + 1))) by {
            assert forall|x: int| 0 <= x < j + 1 implies '0' <= #[trigger] p1.subrange(0, j + 1)[x] <= '9' by {
                if x < j {
                    assert(p1.subrange(0, j + 1)[x] == p1.subrange(0, j as int)[x]);
                }
            }
        }
        assert(pow10((j + 1) as nat) == 10 * pow10(j as nat));
        assert(pow10((j + 1) as nat) <= pow10(18)) by {
            lemma_pow10_mono((j + 1) as nat, 18);
        }
        f = f * 10 + (c as u64 - 48);
        j = j + 1;
    }
    assert(p1.subrange(0, len1 as int) =~= p1);
    // scaled to eighteen digits
    let mut m: usize = 0;
    let ghost v1 = f as int;
    while m < 18 - len1
        invariant
            len1 <= 18,
            m <= 18 - len1,
            f == v1 * pow10(m as nat),
            f < pow10((len1 + m) as nat),
            pow10((len1 + m) as nat) <= pow10(18),
            pow10(18) == 1_000_000_000_000_000_000,
        decreases 18 - len1 - m,
    {
        assert(pow10((m + 1) as nat) == 10 * pow10(m as nat));
        assert(pow10((len1 + m + 1) as nat) == 10 * pow10((len1 + m) as nat));
        assert(pow10((len1 + m + 1) as nat) <= pow10(18)) by {
            lemma_pow10_mono((len1 + m + 1) as nat, 18);
        }
        assert(f * 10 == v1 * pow10((m + 1) as nat)) by (nonlinear_arith)
            requires
                f == v1 * pow10(m as nat),
                pow10((m + 1) as nat) == 10 * pow10(m as nat),
        ;
        f = f * 10;
        m = m + 1;
    }
    let ghost lv = limbs_value([v0.0, v0.1, v0.2, v0.3]);
    let fits = u256_mul_fits([v0.0, v0.1, v0.2, v0.3], 1_000_000_000_000_000_000u128);
    let at_edge = v0.0 == 6556793060461518625u64 && v0.1 == 6910287421937809894u64 && v0.2
        == 8240973594166534375u64 && v0.3 == 18u64;
    proof {
        let q = [6556793060461518625u64, 6910287421937809894u64, 8240973594166534375u64, 18u64];
        assert(limbs_value(q) == 115792089237316195423570985008687907853269984665640564039457int);
        if lv == 115792089237316195423570985008687907853269984665640564039457int {
            lemma_limbs_unique([v0.0, v0.1, v0.2, v0.3], q);
        }
        lemma_scaled_sum_overflow(lv, f as int);
        assert(18 - p1.len() == 18 - len1);
        assert(f as int == digits_value(p1) * pow10((18 - p1.len()) as nat));
    }
    !fits || (at_edge && f >= 584007913129639936u64)
}

proof fn lemma_pow10_pos(n: nat)
    ensures
        pow10(n) >= 1,
    decreases n,
{
    if n > 0 {
        lemma_pow10_pos((n - 1) as nat);
    }
}

proof fn lemma_pow10_mono(i: nat, j: nat)
    requires
        i <= j,
    ensures
        1 <= pow10(i) <= pow10(j),
        pow10(18) == 1_000_000_000_000_000_000,
    decreases j,
{
    reveal_with_fuel(pow10, 19);
    lemma_pow10_pos(i);
    if i < j {
        lemma_pow10_mono(i, (j - 1) as nat);
    }
}

/// Calls `FPDecimal::mul(&self, other: i128)`. Its contract claims the
/// magnitude is the product of the magnitude and `|k|`, with the sign rule of
/// `fp_mul_int`; the call panics on 256-bit overflow, which `requires` leaves out.
#[verifier::external_body]
pub(crate) fn fp_mul_int_call(x: &Decimal, k: i128) -> (r: Decimal)
    requires
        fp_mul_int_fits(x@, k as int),
    ensures
        r@ == fp_mul_int(x@, k as int),
{
    let mut f = FPDecimal::ZERO;
    f.num.0 = x.limbs;
    f.sign = x.sign;
    let p = f.mul(k);
    Decimal { limbs: p.num.0, sign: p.sign }
}

/// Calls `<FPDecimal as Div>::div`. Its contract claims the result given by
/// `fp_div`; the call panics on a zero divisor and on a quotient beyond 256
/// bits, which `requires` leaves out.
#[verifier::external_body]
pub(crate) fn fp_div_call(x: &Decimal, y: &Decimal) -> (r: Decimal)
    requires
        fp_div_defined(x@, y@),
    ensures
        r@ == fp_div(x@, y@),
{
    let mut a = FPDecimal::ZERO;
    a.num.0 = x.limbs;
    a.sign = x.sign;
    let mut b = FPDecimal::ZERO;
    b.num.0 = y.limbs;
    b.sign = y.sign;
    let q = a / b;
    Decimal { limbs: q.num.0, sign: q.sign }
}

/// Calls `<FPDecimal as PartialOrd>::le`. Its contract claims the answer that
/// the source's hand-written `le` computes from the signs and magnitudes.
#[verifier::external_body]
pub(crate) fn fp_le_call(x: &Decimal, y: &Decimal) -> (r: bool)
    ensures
        r == fp_le(x@, y@),
{
    let mut a = FPDecimal::ZERO;
    a.num.0 = x.limbs;
    a.sign = x.sign;
    let mut b = FPDecimal::ZERO;
    b.num.0 = y.limbs;
    b.sign = y.sign;
    a <= b
}

/// Calls `<u128 as From<FPDecimal>>::from`, which gives the whole units of a
/// value: its magnitude divided by 10^18, rounded down (the sign is not
/// looked at). Its contract claims that result; the call panics where it
/// reaches 2^128, which `requires` leaves out.
#[verifier::external_body]
pub(crate) fn fp_to_units(x: &Decimal) -> (r: u128)
    requires
        x@.num / fp_one() < pow128(),
    ensures
        r == x@.num / fp_one(),
{
    let mut a = FPDecimal::ZERO;
    a.num.0 = x.limbs;
    a.sign = x.sign;
    u128::from(a)
}

/// Whether the whole units of `x` are below 2^128, so that `fp_to_units`
/// returns.
pub fn units_fit(x: &Decimal) -> (r: bool)
    ensures
        r == (x@.num / fp_one() < pow128()),
{
    let l = x.limbs;
    let ghost v = limbs_value(l);
    let ghost low = l[0] as int + l[1] as int * pow64();
    proof {
        assert(0 <= low < pow128()) by (nonlinear_arith)
            requires
                low == l[0] as int + l[1] as int * pow64(),
                0 <= l[0] < pow64(),
                0 <= l[1] < pow64(),
                pow128() == pow64() * pow64(),
        ;
        assert(v == low + l[2] as int * pow128() + l[3] as int * pow192());
        assert(pow192() == pow128() * pow64());
        assert(v / fp_one() < pow128() <==> v < pow128() * fp_one()) by (nonlinear_arith)
            requires
                v >= 0,
                fp_one() > 0,
        ;
        if l[3] == 0 && l[2] < 1_000_000_000_000_000_000u64 {
            assert(l[2] as int * pow128() + pow128() <= pow128() * fp_one()) by (nonlinear_arith)
                requires
                    l[2] < fp_one(),
                    pow128() > 0,
            ;
        } else if l[3] != 0 {
            assert(l[3] as int * pow192() >= pow128() * fp_one()) by (nonlinear_arith)
                requires
                    l[3] >= 1,
                    pow192() == pow128() * pow64(),
                    fp_one() < pow64(),
                    pow128() > 0,
            ;
        } else {
            assert(l[2] as int * pow128() >= pow128() * fp_one()) by (nonlinear_arith)
                requires
                    l[2] >= fp_one(),
                    pow128() > 0,
            ;
        }
    }
    l[3] == 0 && l[2] < 1_000_000_000_000_000_000u64
}

/// Calls `U256::checked_mul` on the 256-bit integer held by `a` and `b`. Its
/// contract claims that the product is reported to fit exactly when it is
/// below 2^256 (the call returns `None` on overflow).
#[verifier::external_body]
fn u256_mul_fits(a: [u64; 4], b: u128) -> (r: bool)
    ensures
        r == (limbs_value(a) * b < pow256()),
{
    U256(a).checked_mul(U256::from(b)).is_some()
}

/// Evaluates the quotient that `FPDecimal`'s division forms,
/// `ONE.full_mul(x) / y` in 512 bits, and converts it back with
/// `U256::try_from`. Its contract claims that the conversion succeeds exactly
/// when the floor of `10^18 * x / y` is below 2^256.
#[verifier::external_body]
fn scaled_quotient_fits(x: [u64; 4], y: [u64; 4]) -> (r: bool)
    requires
        limbs_value(y) != 0,
    ensures
        r == ((fp_one() * limbs_value(x)) / limbs_value(y) < pow256()),
{
    let q = FPDecimal::ONE.num.full_mul(U256(x)) / U512::from(U256(y));
    U256::try_from(q).is_ok()
}

/// Whether `x.mul(k)` returns instead of panicking.
pub fn mul_int_fits(x: &Decimal, k: i128) -> (r: bool)
    ensures
        r == fp_mul_int_fits(x@, k as int),
{
    let a: u128 = if k < 0 {
        if k == i128::MIN {
            0x8000_0000_0000_0000_0000_0000_0000_0000u128
        } else {
            (-k) as u128
        }
    } else {
        k as u128
    };
    u256_mul_fits(x.limbs, a)
}

/// Whether `x / y` returns instead of panicking.
pub fn div_defined(x: &Decimal, y: &Decimal) -> (r: bool)
    ensures
        r == fp_div_defined(x@, y@),
{
    let l = y.limbs;
    if y.sign == 1 && l[0] == 1_000_000_000_000_000_000u64 && l[1] == 0 && l[2] == 0 && l[3] == 0 {
        return true;
    }
    assert(limbs_value(l) == fp_one() ==> (l[0] == 1_000_000_000_000_000_000u64 && l[1] == 0
        && l[2] == 0 && l[3] == 0));
    if l[0] == 0 && l[1] == 0 && l[2] == 0 && l[3] == 0 {
        return false;
    }
    scaled_quotient_fits(x.limbs, l)
}

impl Decimal {
    /// Builds a decimal from its limbs and sign byte.
    pub fn new(limbs: [u64; 4], sign: i8) -> (r: Decimal)
        ensures
            r.limbs == limbs,
            r.sign == sign,
    {
        Decimal { limbs, sign }
    }

    /// The decimal whose scaled magnitude is `raw` (that is, `raw / 10^18`).
    pub fn from_raw_u64(raw: u64) -> (r: Decimal)
        ensures
            r@ == (Fp { num: raw as int, sign: 1 }),
    {
        Decimal { limbs: [raw, 0, 0, 0], sign: 1 }
    }

    /// Parses a decimal string as `FPDecimal::from_str` does (which panics
    /// on the strings of `from_str_overflows`; see `str_overflows`).
    pub fn parse(s: &str) -> (r: Option<Decimal>)
        requires
            !from_str_overflows(s@),
        ensures
            r is None <==> fp_parse(s@) is None,
            r matches Some(d) ==> fp_parse(s@) == Some((d@.num, d@.sign)),
    {
        fp_from_str(s)
    }
}

} // verus!
