//! Fixed-point scalars: the decimal-literal grammar, its value in
//! micro-units, truncating division, and decimal formatting.

use vstd::prelude::*;
use vstd::arithmetic::div_mod::{
    lemma_div_is_ordered, lemma_div_is_strictly_smaller, lemma_fundamental_div_mod,
    lemma_mod_bound,
};
use crate::geom::VALUE_LIMIT;
use crate::scan::{
    first_where, dot_p, non_ws_p, trimmed, is_ws, is_ws_char, lemma_first_where_bounds,
    lemma_first_where_is, lemma_last_where_is,
};

verus! {

/// Integer division truncating toward zero (the sign convention of `/` on
/// machine integers), defined for positive divisors.
pub open spec fn div_tz(a: int, b: int) -> int {
    if a >= 0 {
        a / b
    } else {
        -((-a) / b)
    }
}

pub open spec fn is_digit(c: char) -> bool {
    '0' <= c && c <= '9'
}

/// Numeric value of a decimal digit character; zero for anything else.
pub open spec fn digit_val(c: char) -> int {
    if is_digit(c) {
        c as int - '0' as int
    } else {
        0
    }
}

/// Value of a most-significant-first digit string.
pub open spec fn digits_val(s: Seq<char>) -> int
    decreases s.len(),
{
    if s.len() == 0 {
        0
    } else {
        digits_val(s.drop_last()) * 10 + digit_val(s.last())
    }
}

pub open spec fn all_digits(s: Seq<char>) -> bool {
    forall|k: int| 0 <= k < s.len() ==> is_digit(#[trigger] s[k])
}

/// Ten to a small power; covers the fraction scales used by the parser.
pub open spec fn pow10(k: int) -> int {
    if k <= 0 {
        1
    } else if k == 1 {
        10
    } else if k == 2 {
        100
    } else if k == 3 {
        1000
    } else if k == 4 {
        10000
    } else if k == 5 {
        100000
    } else {
        1000000
    }
}

/// Micro-unit value contributed by a fraction-digit string: only the first
/// six fraction digits are significant; shorter fractions are scaled up.
pub open spec fn frac_val(s: Seq<char>) -> int {
    if s.len() >= 6 {
        digits_val(s.take(6))
    } else {
        digits_val(s) * pow10(6 - s.len())
    }
}

pub proof fn lemma_digits_val_nonneg(s: Seq<char>)
    ensures
        digits_val(s) >= 0,
    decreases s.len(),
{
    if s.len() > 0 {
        lemma_digits_val_nonneg(s.drop_last());
    }
}

/// Appending one digit multiplies the value by ten and adds that digit.
pub proof fn lemma_digits_val_step(s: Seq<char>, i: int)
    requires
        0 <= i < s.len(),
    ensures
        digits_val(s.subrange(0, i + 1)) == digits_val(s.subrange(0, i)) * 10 + digit_val(s[i]),
{
    assert(s.subrange(0, i + 1).drop_last() =~= s.subrange(0, i));
    assert(s.subrange(0, i + 1).last() == s[i]);
}

/// The decimal-literal grammar and its micro-unit value: an optional sign,
/// then digits with at most one dot among them and at least one digit in
/// all. `None` for anything else.
pub open spec fn parse_fixed_spec(t: Seq<char>) -> Option<int> {
    let neg = t.len() > 0 && t[0] == '-';
    let signed = t.len() > 0 && (t[0] == '-' || t[0] == '+');
    let u = if signed {
        t.drop_first()
    } else {
        t
    };
    let d = first_where(u, dot_p());
    let ip = if d >= u.len() {
        u
    } else {
        u.subrange(0, d)
    };
    let fp = if d >= u.len() {
        Seq::<char>::empty()
    } else {
        u.subrange(d + 1, u.len() as int)
    };
    if all_digits(ip) && all_digits(fp) && ip.len() + fp.len() >= 1 {
        let mag = digits_val(ip) * 1_000_000 + frac_val(fp);
        Some(
            if neg {
                -mag
            } else {
                mag
            },
        )
    } else {
        None
    }
}

/// `parse_fixed_spec` with the representable range enforced.
pub open spec fn fixed_of(t: Seq<char>) -> Option<i64> {
    match parse_fixed_spec(t) {
        Some(v) => if -(VALUE_LIMIT as int) <= v <= VALUE_LIMIT as int {
            Some(v as i64)
        } else {
            None
        },
        None => None,
    }
}

/// What a raw numeric field parses to: surrounding whitespace is ignored,
/// then the trimmed text must be a decimal literal in range.
pub open spec fn scalar_of(s: Seq<char>) -> Option<i64> {
    fixed_of(trimmed(s))
}

/// The character for one decimal digit.
pub open spec fn digit_char(d: int) -> char {
    if d == 0 {
        '0'
    } else if d == 1 {
        '1'
    } else if d == 2 {
        '2'
    } else if d == 3 {
        '3'
    } else if d == 4 {
        '4'
    } else if d == 5 {
        '5'
    } else if d == 6 {
        '6'
    } else if d == 7 {
        '7'
    } else if d == 8 {
        '8'
    } else {
        '9'
    }
}

/// The decimal digits of `n`, most significant first, no leading zeros
/// (a single zero digit for zero itself).
pub open spec fn dec_digits(n: int) -> Seq<char>
    decreases n,
    via dec_digits_decreases
{
    if n < 10 {
        seq![digit_char(n)]
    } else {
        dec_digits(n / 10).push(digit_char(n % 10))
    }
}

#[via_fn]
proof fn dec_digits_decreases(n: int) {
    if n >= 10 {
        lemma_div_is_strictly_smaller(n, 10);
        lemma_div_is_ordered(0, n, 10);
    }
}

/// The decimal digits of `n` written in exactly `w` places, zero-padded.
pub open spec fn fixed_digits(n: int, w: int) -> Seq<char>
    decreases w,
{
    if w <= 0 {
        Seq::empty()
    } else {
        fixed_digits(n / 10, w - 1).push(digit_char(n % 10))
    }
}

/// The canonical text of a micro-unit value: an optional minus sign, the
/// whole units without leading zeros, a dot, and exactly six fraction
/// digits.
pub open spec fn fmt_fixed(v: int) -> Seq<char> {
    let m = if v >= 0 {
        v
    } else {
        -v
    };
    (if v < 0 {
        seq!['-']
    } else {
        Seq::<char>::empty()
    }) + dec_digits(m / 1_000_000) + seq!['.'] + fixed_digits(m % 1_000_000, 6)
}

pub proof fn lemma_dec_digits_props(n: int)
    requires
        n >= 0,
    ensures
        dec_digits(n).len() >= 1,
        all_digits(dec_digits(n)),
        digits_val(dec_digits(n)) == n,
    decreases n,
{
    if n < 10 {
        assert(dec_digits(n) =~= seq![digit_char(n)]);
        assert(seq![digit_char(n)].drop_last() =~= Seq::<char>::empty());
        assert(digits_val(seq![digit_char(n)]) == digits_val(Seq::<char>::empty()) * 10
            + digit_val(digit_char(n)));
    } else {
        lemma_div_is_strictly_smaller(n, 10);
        lemma_div_is_ordered(0, n, 10);
        lemma_dec_digits_props(n / 10);
        lemma_mod_bound(n, 10);
        let pre = dec_digits(n / 10);
        let s = pre.push(digit_char(n % 10));
        assert(s.drop_last() =~= pre);
        assert(digits_val(s) == digits_val(pre) * 10 + digit_val(s.last()));
        lemma_fundamental_div_mod(n, 10);
        assert(all_digits(s)) by {
            assert(forall|k: int| 0 <= k < s.len() - 1 ==> s[k] == pre[k]);
        }
    }
}

pub proof fn lemma_fixed_digits_props(n: int, w: int)
    requires
        0 <= w <= 6,
        0 <= n < pow10(w),
    ensures
        fixed_digits(n, w).len() == w,
        all_digits(fixed_digits(n, w)),
        digits_val(fixed_digits(n, w)) == n,
    decreases w,
{
    if w > 0 {
        lemma_div_is_ordered(0, n, 10);
        lemma_div_is_ordered(n, pow10(w) - 1, 10);
        assert((pow10(w) - 1) / 10 == pow10(w - 1) - 1);
        lemma_fixed_digits_props(n / 10, w - 1);
        lemma_mod_bound(n, 10);
        let pre = fixed_digits(n / 10, w - 1);
        let s = pre.push(digit_char(n % 10));
        assert(s.drop_last() =~= pre);
        assert(digits_val(s) == digits_val(pre) * 10 + digit_val(s.last()));
        lemma_fundamental_div_mod(n, 10);
        assert(all_digits(s)) by {
            assert(forall|k: int| 0 <= k < s.len() - 1 ==> s[k] == pre[k]);
        }
    }
}

/// Formatted scalars hold only digits, a minus sign and a dot — never a
/// comma or whitespace — and are never empty.
pub proof fn lemma_fmt_fixed_chars(v: int)
    ensures
        fmt_fixed(v).len() >= 3,
        forall|k: int|
            0 <= k < fmt_fixed(v).len() ==> is_digit(#[trigger] fmt_fixed(v)[k]) || fmt_fixed(
                v,
            )[k] == '-' || fmt_fixed(v)[k] == '.',
{
    let m = if v >= 0 {
        v
    } else {
        -v
    };
    lemma_div_is_ordered(0, m, 1_000_000);
    lemma_dec_digits_props(m / 1_000_000);
    lemma_mod_bound(m, 1_000_000);
    lemma_fixed_digits_props(m % 1_000_000, 6);
    let sgn = if v < 0 {
        seq!['-']
    } else {
        Seq::<char>::empty()
    };
    let ip = dec_digits(m / 1_000_000);
    let fp = fixed_digits(m % 1_000_000, 6);
    let s = fmt_fixed(v);
    assert(s =~= sgn + ip + seq!['.'] + fp);
    assert forall|k: int|
        0 <= k < s.len() implies is_digit(#[trigger] s[k]) || s[k] == '-' || s[k] == '.' by {
        let b = sgn.len();
        if k < b {
            assert(s[k] == '-');
        } else if k < b + ip.len() {
            assert(s[k] == ip[k - b]);
        } else if k == b + ip.len() {
            assert(s[k] == '.');
        } else {
            assert(s[k] == fp[k - (b + ip.len() + 1)]);
        }
    }
}

/// Parsing the canonical text of an in-range value recovers that value.
pub proof fn lemma_fmt_fixed_round_trip(v: int)
    requires
        -(VALUE_LIMIT as int) <= v <= VALUE_LIMIT as int,
    ensures
        parse_fixed_spec(fmt_fixed(v)) == Some(v),
        fixed_of(fmt_fixed(v)) == Some(v as i64),
{
    let m = if v >= 0 {
        v
    } else {
        -v
    };
    lemma_div_is_ordered(0, m, 1_000_000);
    lemma_dec_digits_props(m / 1_000_000);
    lemma_mod_bound(m, 1_000_000);
    lemma_fixed_digits_props(m % 1_000_000, 6);
    let ip = dec_digits(m / 1_000_000);
    let fp = fixed_digits(m % 1_000_000, 6);
    let t = fmt_fixed(v);
    let neg = v < 0;
    let u = if neg {
        t.drop_first()
    } else {
        t
    };
    assert(u =~= ip + seq!['.'] + fp);
    assert forall|k: int| 0 <= k < ip.len() implies !(dot_p())(u[k]) by {
        assert(u[k] == ip[k]);
        assert(is_digit(ip[k]));
    }
    assert(u[ip.len() as int] == '.');
    lemma_first_where_is(u, dot_p(), ip.len() as int);
    assert(u.subrange(0, ip.len() as int) =~= ip);
    assert(u.subrange(ip.len() as int + 1, u.len() as int) =~= fp);
    lemma_fundamental_div_mod(m, 1_000_000);
    assert(frac_val(fp) == digits_val(fp)) by {
        assert(fp.len() == 6);
        assert(fp.take(6) =~= fp);
    }
    assert(parse_fixed_spec(t) == Some(v));
}

pub fn is_digit_char(c: char) -> (r: bool)
    ensures
        r == is_digit(c),
{
    '0' <= c && c <= '9'
}

fn digit_to_u64(c: char) -> (r: u64)
    requires
        is_digit(c),
    ensures
        r == digit_val(c),
        r <= 9,
{
    (c as u32 - 48) as u64
}

fn pow10_exec(k: u64) -> (r: u64)
    requires
        k <= 6,
    ensures
        r == pow10(k as int),
{
    if k == 0 {
        1
    } else if k == 1 {
        10
    } else if k == 2 {
        100
    } else if k == 3 {
        1000
    } else if k == 4 {
        10000
    } else if k == 5 {
        100000
    } else {
        1000000
    }
}

/// Parses one numeric field: ignores surrounding whitespace, then reads a
/// decimal literal, in micro-units. `None` when the field is not a valid
/// literal or its value falls outside the representable range.
pub fn parse_scalar(s: &str) -> (r: Option<i64>)
    ensures
        r == scalar_of(s@),
{
    let n = s.unicode_len();
    let mut a: usize = 0;
    while a < n && is_ws_char(s.get_char(a))
        invariant
            0 <= a <= n == s@.len(),
            forall|k: int| 0 <= k < a ==> is_ws(#[trigger] s@[k]),
        decreases n - a,
    {
        a = a + 1;
    }
    if a == n {
        // nothing but whitespace: trims to the empty string, which has no digits
        proof {
            lemma_first_where_is(s@, non_ws_p(), n as int);
            assert(trimmed(s@) =~= Seq::<char>::empty());
            if n > 0 {
                assert(trimmed(s@).len() == 0);
            }
        }
        return None;
    }
    let mut b: usize = n;
    while b > a + 1 && is_ws_char(s.get_char(b - 1))
        invariant
            a < b <= n == s@.len(),
            forall|k: int| b <= k < n ==> is_ws(#[trigger] s@[k]),
        decreases b,
    {
        b = b - 1;
    }
    proof {
        // when the scan stopped at b == a + 1, the character there is the
        // non-whitespace one the forward scan stopped on
        assert(!is_ws(s@[b - 1]));
        lemma_first_where_is(s@, non_ws_p(), a as int);
        lemma_last_where_is(s@, non_ws_p(), b - 1);
        assert(trimmed(s@) =~= s@.subrange(a as int, b as int));
    }
    let tt = s.substring_char(a, b);
    parse_trimmed_lit(tt)
}

/// Parses a decimal literal with no surrounding whitespace.
#[verifier::rlimit(100)]
fn parse_trimmed_lit(t: &str) -> (r: Option<i64>)
    ensures
        r == fixed_of(t@),
{
    let n = t.unicode_len();
    let mut i: usize = 0;
    let mut neg = false;
    if n > 0 {
        let c0 = t.get_char(0);
        if c0 == '-' {
            neg = true;
            i = 1;
        } else if c0 == '+' {
            i = 1;
        }
    }
    let ghost off = i as int;
    let ghost u = if off == 1 {
        t@.drop_first()
    } else {
        t@
    };
    proof {
        assert(u.len() == n - off);
        assert(forall|k: int| 0 <= k < u.len() ==> u[k] == t@[k + off]);
    }
    // integer-part digits, clamped once the value is surely out of range
    let mut acc: u64 = 0;
    while i < n && is_digit_char(t.get_char(i))
        invariant
            off <= i <= n,
            n == t@.len(),
            u.len() == n - off,
            forall|k: int| 0 <= k < u.len() ==> u[k] == t@[k + off],
            forall|k: int| off <= k < i ==> is_digit(#[trigger] t@[k]),
            (acc <= 100_000_000_000 && acc as int == digits_val(u.subrange(0, i - off))) || (acc
                == 100_000_000_001 && digits_val(u.subrange(0, i - off)) >= 100_000_000_001),
        decreases n - i,
    {
        let d = digit_to_u64(t.get_char(i));
        proof {
            lemma_digits_val_step(u, i - off);
        }
        let nd = acc * 10 + d;
        if nd > 100_000_000_000 {
            acc = 100_000_000_001;
        } else {
            acc = nd;
        }
        i = i + 1;
    }
    let ghost dig_end = i as int;
    let ghost ip = u.subrange(0, dig_end - off);
    if i == n {
        // no dot: the whole body is the integer part
        proof {
            assert forall|k: int| 0 <= k < u.len() implies !(dot_p())(u[k]) by {
                assert(u[k] == t@[k + off]);
            }
            lemma_first_where_is(u, dot_p(), u.len() as int);
            assert(ip =~= u);
        }
        let no_digits = i == if neg || (n > 0 && t.get_char(0) == '+') {
            1
        } else {
            0
        };
        finish_scalar(neg, acc, 0, 0, no_digits, Ghost(ip), Ghost(Seq::<char>::empty()))
    } else {
        let c = t.get_char(i);
        if c == '.' {
            proof {
                assert forall|k: int| 0 <= k < dig_end - off implies !(dot_p())(u[k]) by {
                    assert(u[k] == t@[k + off]);
                }
                assert(u[dig_end - off] == t@[dig_end]);
                lemma_first_where_is(u, dot_p(), dig_end - off);
            }
            let ghost fp = u.subrange(dig_end - off + 1, u.len() as int);
            let mut j: usize = i + 1;
            let mut fr_acc: u64 = 0;
            let mut fr_cnt: u64 = 0;
            proof {
                assert(forall|k: int| 0 <= k < fp.len() ==> fp[k] == t@[k + dig_end + 1]);
                assert(fp.subrange(0, 0) =~= Seq::<char>::empty());
            }
            while j < n && is_digit_char(t.get_char(j))
                invariant
                    dig_end + 1 <= j <= n,
                    n == t@.len(),
                    fp.len() == n - dig_end - 1,
                    forall|k: int| 0 <= k < fp.len() ==> fp[k] == t@[k + dig_end + 1],
                    forall|k: int| dig_end + 1 <= k < j ==> is_digit(#[trigger] t@[k]),
                    fr_cnt == if j - dig_end - 1 <= 6 {
                        j - dig_end - 1
                    } else {
                        6int
                    },
                    fr_acc as int == digits_val(fp.subrange(0, fr_cnt as int)),
                    fr_acc < pow10(fr_cnt as int),
                decreases n - j,
            {
                let d = digit_to_u64(t.get_char(j));
                if fr_cnt < 6 {
                    proof {
                        lemma_digits_val_step(fp, j - dig_end - 1);
                    }
                    fr_acc = fr_acc * 10 + d;
                    fr_cnt = fr_cnt + 1;
                }
                j = j + 1;
            }
            if j < n {
                // a non-digit inside the fraction: malformed
                proof {
                    assert(fp[j - dig_end - 1] == t@[j as int]);
                    assert(!all_digits(fp));
                }
                None
            } else {
                proof {
                    assert forall|k: int| 0 <= k < fp.len() implies is_digit(fp[k]) by {
                        assert(fp[k] == t@[k + dig_end + 1]);
                    }
                    if fp.len() <= 6 {
                        assert(fp.subrange(0, fr_cnt as int) =~= fp);
                    } else {
                        assert(fp.subrange(0, fr_cnt as int) =~= fp.take(6));
                    }
                }
                let no_digits = n == i + 1 && i == if neg || t.get_char(0) == '+' {
                    1
                } else {
                    0
                };
                finish_scalar(neg, acc, fr_acc, fr_cnt, no_digits, Ghost(ip), Ghost(fp))
            }
        } else {
            // a character that is neither digit nor dot: malformed
            proof {
                lemma_first_where_bounds(u, dot_p());
                let d = first_where(u, dot_p());
                if d <= dig_end - off {
                    assert((dot_p())(u[d]));
                    assert(u[d] == t@[d + off]);
                    assert(false);
                }
                if d >= u.len() {
                    assert(u[dig_end - off] == t@[dig_end]);
                    assert(!all_digits(u));
                } else {
                    assert(u.subrange(0, d)[dig_end - off] == t@[dig_end]);
                    assert(!all_digits(u.subrange(0, d)));
                }
            }
            None
        }
    }
}

/// Assembles the parsed magnitude and applies the sign and range policy.
fn finish_scalar(
    neg: bool,
    acc: u64,
    fr_acc: u64,
    fr_cnt: u64,
    no_digits: bool,
    Ghost(ip): Ghost<Seq<char>>,
    Ghost(fp): Ghost<Seq<char>>,
) -> (r: Option<i64>)
    requires
        (acc <= 100_000_000_000 && acc as int == digits_val(ip)) || (acc == 100_000_000_001
            && digits_val(ip) >= 100_000_000_001),
        all_digits(ip),
        all_digits(fp),
        fr_cnt == if fp.len() <= 6 {
            fp.len() as int
        } else {
            6int
        },
        fr_acc as int == digits_val(
            if fp.len() <= 6 {
                fp
            } else {
                fp.take(6)
            },
        ),
        fr_acc <= 999_999,
        no_digits == (ip.len() + fp.len() == 0),
    ensures
        ({
            let w = if ip.len() + fp.len() >= 1 {
                let mag = digits_val(ip) * 1_000_000 + frac_val(fp);
                Some(
                    if neg {
                        -mag
                    } else {
                        mag
                    },
                )
            } else {
                None::<int>
            };
            r == match w {
                Some(v) => if -(VALUE_LIMIT as int) <= v <= VALUE_LIMIT as int {
                    Some(v as i64)
                } else {
                    None
                },
                None => None,
            }
        }),
{
    if no_digits {
        return None;
    }
    proof {
        lemma_digits_val_nonneg(ip);
        lemma_digits_val_nonneg(fp);
        lemma_digits_val_nonneg(fp.take(6));
        if fp.len() < 6 {
            assert(digits_val(fp) * pow10(6 - fp.len()) >= 0) by (nonlinear_arith)
                requires
                    digits_val(fp) >= 0,
                    pow10(6 - fp.len()) >= 1,
            ;
        }
    }
    if acc > 100_000_000_000 {
        // the integer part alone exceeds the representable range
        proof {
            assert(digits_val(ip) * 1_000_000 >= 100_000_000_001_000_000) by (nonlinear_arith)
                requires
                    digits_val(ip) >= 100_000_000_001,
            ;
        }
        return None;
    }
    let scale = pow10_exec(6 - fr_cnt);
    proof {
        assert(fr_acc * scale <= 999_999 * 1_000_000) by (nonlinear_arith)
            requires
                fr_acc <= 999_999,
                0 <= scale <= 1_000_000,
        ;
    }
    let scaled = fr_acc * scale;
    proof {
        if fp.len() == 6 {
            assert(fp.take(6) =~= fp);
        }
        assert(scaled as int == frac_val(fp));
    }
    let mag: u64 = acc * 1_000_000 + scaled;
    if mag > VALUE_LIMIT as u64 {
        None
    } else if neg {
        Some(-(mag as i64))
    } else {
        Some(mag as i64)
    }
}

} // verus!

