//! Decimal formatting of points, and the round trip between formatting
//! and parsing.

use vstd::prelude::*;
use crate::geom::Point3D;
use crate::num::{
    digit_char, dec_digits, fixed_digits, fmt_fixed, lemma_fmt_fixed_chars,
    lemma_fmt_fixed_round_trip, scalar_of,
};
use crate::parse::parse_point_spec;
use crate::scan::{
    comma_p, non_ws_p, is_ws, trimmed, lemma_first_where_is, lemma_last_where_is, lemma_trimmed_id,
};
use crate::geom::MotionError;

verus! {

/// The canonical text of a point: the three coordinates, each formatted
/// as a fixed-point decimal, separated by comma and space.
pub open spec fn fmt_point(p: Point3D) -> Seq<char> {
    fmt_fixed(p.x as int) + seq![',', ' '] + fmt_fixed(p.y as int) + seq![',', ' '] + fmt_fixed(
        p.z as int,
    )
}

fn push_digit(out: &mut String, d: u64)
    requires
        d <= 9,
    ensures
        final(out)@ == old(out)@ + seq![digit_char(d as int)],
{
    proof {
        reveal_strlit("0");
        reveal_strlit("1");
        reveal_strlit("2");
        reveal_strlit("3");
        reveal_strlit("4");
        reveal_strlit("5");
        reveal_strlit("6");
        reveal_strlit("7");
        reveal_strlit("8");
        reveal_strlit("9");
    }
    if d == 0 {
        out.append("0");
    } else if d == 1 {
        out.append("1");
    } else if d == 2 {
        out.append("2");
    } else if d == 3 {
        out.append("3");
    } else if d == 4 {
        out.append("4");
    } else if d == 5 {
        out.append("5");
    } else if d == 6 {
        out.append("6");
    } else if d == 7 {
        out.append("7");
    } else if d == 8 {
        out.append("8");
    } else {
        out.append("9");
    }
    proof {
        assert(out@ =~= old(out)@ + seq![digit_char(d as int)]);
    }
}

/// Appends the decimal digits of `n`, most significant first.
fn append_dec(out: &mut String, n: u64)
    ensures
        final(out)@ == old(out)@ + dec_digits(n as int),
    decreases n,
{
    if n < 10 {
        push_digit(out, n);
        proof {
            assert(out@ =~= old(out)@ + dec_digits(n as int));
        }
    } else {
        append_dec(out, n / 10);
        push_digit(out, n % 10);
        proof {
            assert(out@ =~= old(out)@ + dec_digits(n as int));
        }
    }
}

/// Appends exactly `w` decimal digits of `n`, zero-padded.
fn append_fixed(out: &mut String, n: u64, w: u64)
    ensures
        final(out)@ == old(out)@ + fixed_digits(n as int, w as int),
    decreases w,
{
    if w == 0 {
        proof {
            assert(out@ =~= old(out)@ + fixed_digits(n as int, 0));
        }
    } else {
        append_fixed(out, n / 10, w - 1);
        push_digit(out, n % 10);
        proof {
            assert(out@ =~= old(out)@ + fixed_digits(n as int, w as int));
        }
    }
}

/// Formats a micro-unit value as a decimal literal with six fraction
/// digits; parsing the result recovers the value exactly.
pub fn format_scalar(v: i64) -> (r: String)
    ensures
        r@ == fmt_fixed(v as int),
{
    let m: u64 = if v >= 0 {
        v as u64
    } else {
        (-(v as i128)) as u64
    };
    let mut out = String::new();
    if v < 0 {
        proof {
            reveal_strlit("-");
        }
        out.append("-");
    }
    append_dec(&mut out, m / 1_000_000);
    proof {
        reveal_strlit(".");
    }
    out.append(".");
    append_fixed(&mut out, m % 1_000_000, 6);
    proof {
        assert(out@ =~= fmt_fixed(v as int));
    }
    out
}

/// Formats a point as `x, y, z`; parsing the result recovers the point
/// exactly.
pub fn format_point(p: &Point3D) -> (r: String)
    ensures
        r@ == fmt_point(*p),
{
    let mut out = format_scalar(p.x);
    proof {
        reveal_strlit(", ");
    }
    out.append(", ");
    let sy = format_scalar(p.y);
    out.append(sy.as_str());
    out.append(", ");
    let sz = format_scalar(p.z);
    out.append(sz.as_str());
    proof {
        assert(out@ =~= fmt_point(*p));
    }
    out
}

/// A formatted coordinate, preceded by at most one space, trims back to
/// exactly the formatted text.
proof fn lemma_pad_field_trims(f: Seq<char>, pad: Seq<char>)
    requires
        f.len() >= 1,
        forall|k: int| 0 <= k < f.len() ==> !is_ws(#[trigger] f[k]),
        pad == seq![' '] || pad == Seq::<char>::empty(),
    ensures
        trimmed(pad + f) == f,
{
    let s = pad + f;
    let b = pad.len() as int;
    assert forall|k: int| 0 <= k < b implies is_ws(#[trigger] s[k]) by {
        assert(s[k] == ' ');
    }
    assert forall|k: int| 0 <= k < b implies !(non_ws_p())(s[k]) by {}
    assert((non_ws_p())(s[b]));
    lemma_first_where_is(s, non_ws_p(), b);
    assert(!(is_ws(s[s.len() - 1]))) by {
        assert(s[s.len() - 1] == f[f.len() - 1]);
    }
    lemma_last_where_is(s, non_ws_p(), s.len() - 1);
    assert(trimmed(s) =~= f);
}

/// Round trip: formatting a point and parsing the text back yields the
/// very same point, coordinate for coordinate.
pub proof fn lemma_point_round_trip(p: Point3D)
    requires
        p.wf(),
    ensures
        parse_point_spec(fmt_point(p)) == Ok::<Point3D, MotionError>(p),
{
    let fx = fmt_fixed(p.x as int);
    let fy = fmt_fixed(p.y as int);
    let fz = fmt_fixed(p.z as int);
    lemma_fmt_fixed_chars(p.x as int);
    lemma_fmt_fixed_chars(p.y as int);
    lemma_fmt_fixed_chars(p.z as int);
    let s = fmt_point(p);
    let c1 = fx.len() as int;
    assert forall|k: int| 0 <= k < c1 implies !(comma_p())(s[k]) by {
        assert(s[k] == fx[k]);
    }
    assert(s[c1] == ',');
    lemma_first_where_is(s, comma_p(), c1);
    let r1 = s.subrange(c1 + 1, s.len() as int);
    assert(r1 =~= seq![' '] + fy + seq![',', ' '] + fz);
    let c2 = fy.len() as int + 1;
    assert forall|k: int| 0 <= k < c2 implies !(comma_p())(r1[k]) by {
        if k >= 1 {
            assert(r1[k] == fy[k - 1]);
        } else {
            assert(r1[k] == ' ');
        }
    }
    assert(r1[c2] == ',');
    lemma_first_where_is(r1, comma_p(), c2);
    let r2 = r1.subrange(c2 + 1, r1.len() as int);
    assert(r2 =~= seq![' '] + fz);
    assert forall|k: int| 0 <= k < r2.len() implies !(comma_p())(r2[k]) by {
        if k >= 1 {
            assert(r2[k] == fz[k - 1]);
        } else {
            assert(r2[k] == ' ');
        }
    }
    lemma_first_where_is(r2, comma_p(), r2.len() as int);
    // the three fields trim to the formatted coordinates
    assert(s.subrange(0, c1) =~= fx);
    lemma_trimmed_id(fx);
    assert(r1.subrange(0, c2) =~= seq![' '] + fy);
    lemma_pad_field_trims(fy, seq![' ']);
    lemma_pad_field_trims(fz, seq![' ']);
    lemma_fmt_fixed_round_trip(p.x as int);
    lemma_fmt_fixed_round_trip(p.y as int);
    lemma_fmt_fixed_round_trip(p.z as int);
    assert(scalar_of(s.subrange(0, c1)) == Some(p.x));
    assert(scalar_of(r1.subrange(0, c2)) == Some(p.y));
    assert(scalar_of(r2) == Some(p.z));
}

} // verus!
