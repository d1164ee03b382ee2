//! Exact decimal rendering of rationals.
//!
//! Two modes, mirroring the two ways a confidence interval is reported:
//! a fixed number of decimal places (rounding half away from zero), and the
//! full exact expansion (possible whenever the denominator divides a power
//! of ten, i.e. has no prime factors besides 2 and 5).

use vstd::prelude::*;

verus! {

use vstd::arithmetic::div_mod::lemma_fundamental_div_mod;
use vstd::string::StringExecFns;

/// The decimal digit character for `d` in `0 ..= 9`.
pub open spec fn digit_char(d: int) -> char {
    if d == 0 {
        '0'
    } else if d == 1 {
        '1'
    } else if d == 2 {
        '2'
    } else if d == 3 {
        '3'
    } else if d == 4 {
        '4'
    } else if d == 5 {
        '5'
    } else if d == 6 {
        '6'
    } else if d == 7 {
        '7'
    } else if d == 8 {
        '8'
    } else {
        '9'
    }
}

/// Ten to the `p`-th power.
pub open spec fn pow10(p: nat) -> int
    decreases p,
{
    if p == 0 {
        1
    } else {
        10 * pow10((p - 1) as nat)
    }
}

/// Two to the `k`-th power.
pub open spec fn pow2(k: nat) -> int
    decreases k,
{
    if k == 0 {
        1
    } else {
        2 * pow2((k - 1) as nat)
    }
}

/// The decimal digits of a nonnegative `m`, most significant first.
pub open spec fn dec_digits(m: int) -> Seq<char>
    decreases m,
{
    if m < 10 {
        seq![digit_char(m)]
    } else {
        dec_digits(m / 10) + seq![digit_char(m % 10)]
    }
}

/// The last `p` decimal digits of a nonnegative `m`, zero-padded to width `p`.
pub open spec fn frac_digits(m: int, p: nat) -> Seq<char>
    decreases p,
{
    if p == 0 {
        Seq::empty()
    } else {
        frac_digits(m / 10, (p - 1) as nat) + seq![digit_char(m % 10)]
    }
}

/// `r / den` (with `0 <= r < den`) scaled to `p` decimal places and rounded
/// half away from zero: the nearest integer to `r * 10^p / den`, ties up.
pub open spec fn round_frac(r: int, den: int, p: nat) -> int {
    (2 * r * pow10(p) + den) / (2 * den)
}

/// The rational `num / den` rendered with exactly `p` decimal places,
/// rounded half away from zero. A leading minus sign follows the sign of
/// the numerator; a fraction carry that reaches 1 bumps the integer part.
pub open spec fn render_fixed(num: int, den: int, p: nat) -> Seq<char> {
    let a = if num < 0 {
        -num
    } else {
        num
    };
    let q = a / den;
    let fr = round_frac(a % den, den, p);
    let ip = if fr == pow10(p) {
        q + 1
    } else {
        q
    };
    let fp = if fr == pow10(p) {
        0int
    } else {
        fr
    };
    let sign: Seq<char> = if num < 0 {
        seq!['-']
    } else {
        Seq::empty()
    };
    if p == 0 {
        sign + dec_digits(ip)
    } else {
        sign + dec_digits(ip) + seq!['.'] + frac_digits(fp, p)
    }
}

/// The digits of the exact decimal expansion of `rem / den`
/// (with `0 < rem < den`), by long division, up to `fuel` digits.
/// When the expansion terminates it carries no trailing zeros.
pub open spec fn exact_frac(rem: int, den: int, fuel: nat) -> Seq<char>
    decreases fuel,
{
    if rem <= 0 || fuel == 0 {
        Seq::empty()
    } else {
        seq![digit_char((rem * 10) / den)] + exact_frac((rem * 10) % den, den, (fuel - 1) as nat)
    }
}

/// The digit budget that always suffices for the denominators the renderer
/// accepts (any ten-smooth denominator up to `2 * 10^36` divides `10^121`).
pub open spec fn exact_fuel() -> nat {
    121
}

/// The rational `num / den` rendered exactly: the integer part, and the
/// fractional expansion only when it is nonzero.
pub open spec fn render_exact(num: int, den: int) -> Seq<char> {
    let a = if num < 0 {
        -num
    } else {
        num
    };
    let sign: Seq<char> = if num < 0 {
        seq!['-']
    } else {
        Seq::empty()
    };
    if a % den == 0 {
        sign + dec_digits(a / den)
    } else {
        sign + dec_digits(a / den) + seq!['.'] + exact_frac(a % den, den, exact_fuel())
    }
}

/// The denominator has no prime factors besides 2 and 5, so the decimal
/// expansion of any fraction over it terminates.
pub open spec fn ten_smooth(d: int) -> bool
    decreases d,
{
    if d <= 0 {
        false
    } else if d == 1 {
        true
    } else if d % 2 == 0 {
        ten_smooth(d / 2)
    } else if d % 5 == 0 {
        ten_smooth(d / 5)
    } else {
        false
    }
}

/// Powers of ten are positive.
pub proof fn lemma_pow10_pos(p: nat)
    ensures
        1 <= pow10(p),
    decreases p,
{
    if p > 0 {
        lemma_pow10_pos((p - 1) as nat);
    }
}

/// Powers of two are positive.
proof fn lemma_pow2_pos(k: nat)
    ensures
        1 <= pow2(k),
    decreases k,
{
    if k > 0 {
        lemma_pow2_pos((k - 1) as nat);
    }
}

/// Powers of ten multiply by adding exponents.
pub proof fn lemma_pow10_adds(a: nat, b: nat)
    ensures
        pow10(a + b) == pow10(a) * pow10(b),
    decreases a,
{
    if a == 0 {
        assert(pow10(b) == 1 * pow10(b)) by (nonlinear_arith);
    } else {
        lemma_pow10_adds((a - 1) as nat, b);
        assert(pow10((a + b) as nat) == 10 * pow10((a + b - 1) as nat));
        assert(10 * (pow10((a - 1) as nat) * pow10(b)) == (10 * pow10((a - 1) as nat)) * pow10(b))
            by (nonlinear_arith);
    }
}

/// Powers of two multiply by adding exponents.
proof fn lemma_pow2_adds(a: nat, b: nat)
    ensures
        pow2(a + b) == pow2(a) * pow2(b),
    decreases a,
{
    if a == 0 {
        assert(pow2(b) == 1 * pow2(b)) by (nonlinear_arith);
    } else {
        lemma_pow2_adds((a - 1) as nat, b);
        assert(pow2((a + b) as nat) == 2 * pow2((a + b - 1) as nat));
        assert(2 * (pow2((a - 1) as nat) * pow2(b)) == (2 * pow2((a - 1) as nat)) * pow2(b))
            by (nonlinear_arith);
    }
}

/// `10^(3j)` is at most `2^(10j)`, since `1000 <= 1024`.
proof fn lemma_pow10_le_pow2(j: nat)
    ensures
        pow10(3 * j) <= pow2(10 * j),
    decreases j,
{
    if j == 0 {
    } else {
        lemma_pow10_le_pow2((j - 1) as nat);
        let p = pow10(3 * (j - 1) as nat);
        let q = pow2(10 * (j - 1) as nat);
        lemma_pow10_pos(3 * (j - 1) as nat);
        lemma_pow2_pos(10 * (j - 1) as nat);
        lemma_pow10_adds(3, 3 * (j - 1) as nat);
        lemma_pow2_adds(10, 10 * (j - 1) as nat);
        assert(pow10(3) == 1000) by {
            reveal_with_fuel(pow10, 4);
        }
        assert(pow2(10) == 1024) by {
            reveal_with_fuel(pow2, 11);
        }
        assert(3 * j == 3 + 3 * (j - 1));
        assert(10 * j == 10 + 10 * (j - 1));
        assert(1000 * p <= 1024 * q) by (nonlinear_arith)
            requires
                p <= q,
                p >= 1,
        ;
    }
}

/// Powers of ten do not shrink as the exponent grows.
pub proof fn lemma_pow10_bounds(p: nat, q: nat)
    requires
        p <= q,
    ensures
        1 <= pow10(p) <= pow10(q),
    decreases q,
{
    lemma_pow10_pos(p);
    if p < q {
        lemma_pow10_bounds(p, (q - 1) as nat);
        lemma_pow10_pos((q - 1) as nat);
        assert(pow10(q) == 10 * pow10((q - 1) as nat));
    }
}

/// A ten-smooth number no larger than `2^k` divides `10^k`.
proof fn lemma_ten_smooth_divides(d: int, k: nat)
    requires
        ten_smooth(d),
        d <= pow2(k),
    ensures
        pow10(k) % d == 0,
    decreases d,
{
    lemma_pow10_bounds(0, k);
    if d == 1 {
        vstd::arithmetic::div_mod::lemma_fundamental_div_mod_converse_mod(pow10(k), 1, pow10(k), 0);
    } else if d % 2 == 0 {
        let dh = d / 2;
        lemma_fundamental_div_mod(d, 2);
        assert(k >= 1) by {
            if k == 0 {
                assert(d <= 1);
            }
        }
        assert(dh <= pow2((k - 1) as nat)) by (nonlinear_arith)
            requires
                2 * dh == d,
                d <= 2 * pow2((k - 1) as nat),
        ;
        lemma_ten_smooth_divides(dh, (k - 1) as nat);
        let m = pow10((k - 1) as nat) / dh;
        lemma_fundamental_div_mod(pow10((k - 1) as nat), dh);
        assert(pow10(k) == (5 * m) * d + 0) by (nonlinear_arith)
            requires
                pow10(k) == 10 * pow10((k - 1) as nat),
                pow10((k - 1) as nat) == dh * m + 0,
                d == 2 * dh,
        ;
        assert(0 <= 0 < d);
        vstd::arithmetic::div_mod::lemma_fundamental_div_mod_converse_mod(pow10(k), d, 5 * m, 0);
    } else {
        let dh = d / 5;
        lemma_fundamental_div_mod(d, 5);
        assert(k >= 1) by {
            if k == 0 {
                assert(d <= 1);
            }
        }
        assert(dh <= pow2((k - 1) as nat)) by (nonlinear_arith)
            requires
                5 * dh == d,
                d <= 2 * pow2((k - 1) as nat),
                pow2((k - 1) as nat) >= 1,
        ;
        lemma_ten_smooth_divides(dh, (k - 1) as nat);
        let m = pow10((k - 1) as nat) / dh;
        lemma_fundamental_div_mod(pow10((k - 1) as nat), dh);
        assert(pow10(k) == (2 * m) * d + 0) by (nonlinear_arith)
            requires
                pow10(k) == 10 * pow10((k - 1) as nat),
                pow10((k - 1) as nat) == dh * m + 0,
                d == 5 * dh,
        ;
        vstd::arithmetic::div_mod::lemma_fundamental_div_mod_converse_mod(pow10(k), d, 2 * m, 0);
    }
}

/// Products of ten-smooth numbers are ten-smooth.
pub proof fn lemma_ten_smooth_mul(a: int, b: int)
    requires
        ten_smooth(a),
        ten_smooth(b),
    ensures
        ten_smooth(a * b),
    decreases a, b,
{
    if a == 1 {
        assert(1 * b == b) by (nonlinear_arith);
    } else if b == 1 {
        assert(a * 1 == a) by (nonlinear_arith);
    } else if a % 2 == 0 {
        let ah = a / 2;
        lemma_fundamental_div_mod(a, 2);
        lemma_ten_smooth_mul(ah, b);
        assert(a * b == (ah * b) * 2 + 0) by (nonlinear_arith)
            requires
                a == 2 * ah,
        ;
        assert(a * b >= 2) by (nonlinear_arith)
            requires
                a >= 2,
                b >= 1,
        ;
        vstd::arithmetic::div_mod::lemma_fundamental_div_mod_converse(a * b, 2, ah * b, 0);
    } else if b % 2 == 0 {
        let bh = b / 2;
        lemma_fundamental_div_mod(b, 2);
        lemma_ten_smooth_mul(a, bh);
        assert(a * b == (a * bh) * 2 + 0) by (nonlinear_arith)
            requires
                b == 2 * bh,
        ;
        assert(a * b >= 2) by (nonlinear_arith)
            requires
                a >= 1,
                b >= 2,
        ;
        vstd::arithmetic::div_mod::lemma_fundamental_div_mod_converse(a * b, 2, a * bh, 0);
    } else {
        // both odd, both divisible by 5
        let ah = a / 5;
        lemma_fundamental_div_mod(a, 5);
        lemma_fundamental_div_mod(a, 2);
        lemma_fundamental_div_mod(b, 2);
        lemma_ten_smooth_mul(ah, b);
        assert(a * b == (ah * b) * 5 + 0) by (nonlinear_arith)
            requires
                a == 5 * ah,
        ;
        assert(a * b >= 5) by (nonlinear_arith)
            requires
                a >= 5,
                b >= 1,
        ;
        // a product of two odd numbers is odd
        let x = a / 2;
        let y = b / 2;
        assert(a * b == (2 * x * y + x + y) * 2 + 1) by (nonlinear_arith)
            requires
                a == 2 * x + 1,
                b == 2 * y + 1,
        ;
        vstd::arithmetic::div_mod::lemma_fundamental_div_mod_converse(
            a * b,
            2,
            2 * x * y + x + y,
            1,
        );
        vstd::arithmetic::div_mod::lemma_fundamental_div_mod_converse(a * b, 5, ah * b, 0);
    }
}

/// The one-character string for a decimal digit.
fn digit_str(d: u128) -> (r: &'static str)
    requires
        d <= 9,
    ensures
        r@ == seq![digit_char(d as int)],
{
    if d == 0 {
        proof {
            reveal_strlit("0");
            assert("0"@ =~= seq![digit_char(0int)]);
        }
        "0"
    } else if d == 1 {
        proof {
            reveal_strlit("1");
            assert("1"@ =~= seq![digit_char(1int)]);
        }
        "1"
    } else if d == 2 {
        proof {
            reveal_strlit("2");
            assert("2"@ =~= seq![digit_char(2int)]);
        }
        "2"
    } else if d == 3 {
        proof {
            reveal_strlit("3");
            assert("3"@ =~= seq![digit_char(3int)]);
        }
        "3"
    } else if d == 4 {
        proof {
            reveal_strlit("4");
            assert("4"@ =~= seq![digit_char(4int)]);
        }
        "4"
    } else if d == 5 {
        proof {
            reveal_strlit("5");
            assert("5"@ =~= seq![digit_char(5int)]);
        }
        "5"
    } else if d == 6 {
        proof {
            reveal_strlit("6");
            assert("6"@ =~= seq![digit_char(6int)]);
        }
        "6"
    } else if d == 7 {
        proof {
            reveal_strlit("7");
            assert("7"@ =~= seq![digit_char(7int)]);
        }
        "7"
    } else if d == 8 {
        proof {
            reveal_strlit("8");
            assert("8"@ =~= seq![digit_char(8int)]);
        }
        "8"
    } else {
        proof {
            reveal_strlit("9");
            assert("9"@ =~= seq![digit_char(9int)]);
        }
        "9"
    }
}

/// Ten to the `p`-th power, executable.
fn pow10_u128(p: usize) -> (r: u128)
    requires
        p <= 18,
    ensures
        r == pow10(p as nat),
{
    proof {
        assert(pow10(18) == 1000000000000000000) by {
            reveal_with_fuel(pow10, 19);
        }
    }
    let mut r: u128 = 1;
    let mut k: usize = 0;
    while k < p
        invariant
            k <= p <= 18,
            r == pow10(k as nat),
            pow10(18) == 1000000000000000000,
        decreases p - k,
    {
        proof {
            lemma_pow10_bounds((k + 1) as nat, 18);
        }
        r = r * 10;
        k = k + 1;
    }
    r
}

/// Appends the decimal digits of `m`, most significant first.
fn append_dec(out: &mut String, m: u128)
    ensures
        final(out)@ == old(out)@ + dec_digits(m as int),
    decreases m,
{
    if m < 10 {
        let s = digit_str(m);
        out.append(s);
        assert(out@ =~= old(out)@ + dec_digits(m as int));
    } else {
        proof {
            lemma_fundamental_div_mod(m as int, 10);
        }
        append_dec(out, m / 10);
        let s = digit_str(m % 10);
        out.append(s);
        assert(out@ =~= old(out)@ + dec_digits(m as int));
    }
}

/// Appends the last `p` decimal digits of `m`, zero-padded to width `p`.
fn append_frac(out: &mut String, m: u128, p: usize)
    ensures
        final(out)@ == old(out)@ + frac_digits(m as int, p as nat),
    decreases p,
{
    if p > 0 {
        append_frac(out, m / 10, p - 1);
        let s = digit_str(m % 10);
        out.append(s);
        assert(out@ =~= old(out)@ + frac_digits(m as int, p as nat));
    } else {
        assert(out@ =~= old(out)@ + frac_digits(m as int, 0));
    }
}

/// Appends `num / den` rendered with exactly `p` decimal places, rounding
/// half away from zero.
pub fn append_rat_fixed(out: &mut String, num: i128, den: i128, p: usize)
    requires
        1 <= den,
        i128::MIN < num,
        p <= 18,
        2 * den * pow10(p as nat) <= i128::MAX,
    ensures
        final(out)@ == old(out)@ + render_fixed(num as int, den as int, p as nat),
{
    proof {
        lemma_pow10_pos(p as nat);
    }
    let neg = num < 0;
    if neg {
        proof {
            reveal_strlit("-");
            assert("-"@ =~= seq!['-']);
        }
        out.append("-");
    }
    let a: u128 = if neg {
        (-num) as u128
    } else {
        num as u128
    };
    let d: u128 = den as u128;
    let q: u128 = a / d;
    let r: u128 = a % d;
    let pw: u128 = pow10_u128(p);
    proof {
        lemma_fundamental_div_mod(a as int, d as int);
        assert(2 * (r as int) * (pw as int) <= 2 * den * pow10(p as nat)) by (nonlinear_arith)
            requires
                0 <= r as int <= den - 1,
                pw as int == pow10(p as nat),
                pow10(p as nat) >= 1,
                den >= 1,
        ;
    }
    let fr: u128 = (2 * r * pw + d) / (2 * d);
    proof {
        lemma_fundamental_div_mod((2 * r * pw + d) as int, (2 * d) as int);
        // the rounded fraction is at most one whole unit
        assert(fr as int <= pow10(p as nat)) by (nonlinear_arith)
            requires
                (2 * d as int) * (fr as int) + ((2 * (r as int) * (pw as int) + d as int) % (2
                    * d as int)) == 2 * (r as int) * (pw as int) + d as int,
                0 <= (2 * (r as int) * (pw as int) + d as int) % (2 * d as int),
                0 <= (r as int) && (r as int) < (d as int),
                1 <= d as int,
                pw as int == pow10(p as nat),
                pw as int >= 1,
        ;
        // the integer part is at most the whole magnitude
        assert(q as int <= a as int) by (nonlinear_arith)
            requires
                (d as int) * (q as int) + (r as int) == a as int,
                0 <= r as int,
                1 <= d as int,
                0 <= q as int,
        ;
    }
    let carry = fr == pw;
    let ip: u128 = if carry {
        q + 1
    } else {
        q
    };
    let fp: u128 = if carry {
        0
    } else {
        fr
    };
    append_dec(out, ip);
    if p > 0 {
        proof {
            reveal_strlit(".");
            assert("."@ =~= seq!['.']);
        }
        out.append(".");
        append_frac(out, fp, p);
    }
    assert(out@ =~= old(out)@ + render_fixed(num as int, den as int, p as nat));
}

/// Appends `num / den` rendered exactly. The ten-smooth denominator bound
/// guarantees the expansion terminates within the digit budget.
pub fn append_rat_exact(out: &mut String, num: i128, den: i128)
    requires
        1 <= den,
        i128::MIN < num,
        ten_smooth(den as int),
        den <= 2 * pow10(36),
    ensures
        final(out)@ == old(out)@ + render_exact(num as int, den as int),
{
    proof {
        lemma_pow10_pos(36);
        assert(pow10(37) == 10000000000000000000000000000000000000) by {
            reveal_with_fuel(pow10, 38);
        }
        lemma_pow10_bounds(36, 37);
    }
    let neg = num < 0;
    if neg {
        proof {
            reveal_strlit("-");
            assert("-"@ =~= seq!['-']);
        }
        out.append("-");
    }
    let a: u128 = if neg {
        (-num) as u128
    } else {
        num as u128
    };
    let d: u128 = den as u128;
    let q: u128 = a / d;
    let r: u128 = a % d;
    append_dec(out, q);
    if r == 0 {
        assert(out@ =~= old(out)@ + render_exact(num as int, den as int));
        return ;
    }
    proof {
        reveal_strlit(".");
        assert("."@ =~= seq!['.']);
    }
    out.append(".");
    let ghost base: Seq<char> = out@;
    let ghost dint: int = den as int;
    let ghost r0: int = r as int;
    let mut rem: u128 = r;
    let mut k: usize = 0;
    let ghost mut g: int = 0;
    while rem != 0 && k < 121
        invariant
            1 <= dint <= 2 * pow10(36),
            ten_smooth(dint),
            d == dint,
            k <= 121,
            0 <= rem < d,
            0 < r0 < dint,
            r0 * pow10(k as nat) == dint * g + rem,
            base + exact_frac(r0, dint, exact_fuel()) == out@ + exact_frac(
                rem as int,
                dint,
                (exact_fuel() - k) as nat,
            ),
            pow10(37) == 10000000000000000000000000000000000000,
        decreases 121 - k,
    {
        proof {
            lemma_pow10_bounds(36, 37);
            assert((rem as int) * 10 < 2 * pow10(37)) by (nonlinear_arith)
                requires
                    (rem as int) < dint,
                    dint <= 2 * pow10(36),
                    pow10(37) == 10 * pow10(36),
            ;
        }
        let t10: u128 = rem * 10;
        let digit: u128 = t10 / d;
        let new_rem: u128 = t10 % d;
        proof {
            lemma_fundamental_div_mod(t10 as int, dint);
            assert(digit <= 9) by (nonlinear_arith)
                requires
                    dint * (digit as int) + (new_rem as int) == (rem as int) * 10,
                    0 <= new_rem as int,
                    (rem as int) < dint,
                    1 <= dint,
                    0 <= digit as int,
            ;
            assert(r0 * pow10((k + 1) as nat) == dint * (10 * g + digit as int) + new_rem as int)
                by (nonlinear_arith)
                requires
                    r0 * pow10(k as nat) == dint * g + rem as int,
                    (rem as int) * 10 == dint * (digit as int) + new_rem as int,
                    pow10((k + 1) as nat) == 10 * pow10(k as nat),
            ;
        }
        out.append(digit_str(digit));
        proof {
            assert(exact_frac(rem as int, dint, (exact_fuel() - k) as nat) =~= seq![
                digit_char(digit as int),
            ] + exact_frac(new_rem as int, dint, (exact_fuel() - k - 1) as nat));
            assert(base + exact_frac(r0, dint, exact_fuel()) =~= (out@ + exact_frac(
                new_rem as int,
                dint,
                (exact_fuel() - (k + 1)) as nat,
            )));
            g = 10 * g + digit as int;
        }
        rem = new_rem;
        k = k + 1;
    }
    proof {
        // the ten-smooth denominator divides 10^121, so the expansion has in
        // fact terminated: the remainder cannot still be nonzero at the cap
        if rem != 0 {
            lemma_pow10_le_pow2(12);
            assert(pow2(121) == 2 * pow2(120));
            lemma_ten_smooth_divides(dint, 121);
            lemma_fundamental_div_mod(pow10(121), dint);
            let t = pow10(121) / dint;
            assert(r0 * pow10(121) == dint * (r0 * t)) by (nonlinear_arith)
                requires
                    pow10(121) == dint * t + 0,
            ;
            assert(rem == 0) by (nonlinear_arith)
                requires
                    dint * g + (rem as int) == dint * (r0 * t),
                    0 <= (rem as int) && (rem as int) < dint,
            ;
        }
    }
    assert(out@ =~= old(out)@ + render_exact(num as int, den as int));
}

} // verus!
