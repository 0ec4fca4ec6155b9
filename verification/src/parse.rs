//! Command parsing: a point literal `x, y, z`, a linear command of three
//! whitespace-separated tokens, and a rotational command of five.

use vstd::prelude::*;
use crate::geom::{Point3D, Circle, RotationDirection, MotionError, VALUE_LIMIT};
use crate::num::{scalar_of, parse_scalar};
use crate::scan::{first_where, comma_p, tokens_of, tokenize, str_eq, lemma_first_where_is};

verus! {

/// What a point literal parses to: exactly three comma-separated fields,
/// each a decimal literal with optional surrounding whitespace.
pub open spec fn parse_point_spec(s: Seq<char>) -> Result<Point3D, MotionError> {
    let c1 = first_where(s, comma_p());
    if c1 >= s.len() {
        Err(MotionError::FormatError)
    } else {
        let r1 = s.subrange(c1 + 1, s.len() as int);
        let c2 = first_where(r1, comma_p());
        if c2 >= r1.len() {
            Err(MotionError::FormatError)
        } else {
            let r2 = r1.subrange(c2 + 1, r1.len() as int);
            if first_where(r2, comma_p()) < r2.len() {
                Err(MotionError::FormatError)
            } else {
                match scalar_of(s.subrange(0, c1)) {
                    None => Err(MotionError::NumericParseError),
                    Some(x) => match scalar_of(r1.subrange(0, c2)) {
                        None => Err(MotionError::NumericParseError),
                        Some(y) => match scalar_of(r2) {
                            None => Err(MotionError::NumericParseError),
                            Some(z) => Ok(Point3D { x, y, z }),
                        },
                    },
                }
            }
        }
    }
}

/// A parsed scalar always lies within the representable range.
pub proof fn lemma_scalar_in_range(s: Seq<char>)
    ensures
        scalar_of(s) matches Some(v) ==> -(VALUE_LIMIT as int) <= v <= VALUE_LIMIT as int,
{
}

/// A parsed point is well formed.
pub proof fn lemma_parsed_point_wf(s: Seq<char>)
    ensures
        parse_point_spec(s) matches Ok(p) ==> p.wf(),
{
}

/// Parses a point literal of the form `x, y, z`.
pub fn parse_point(s: &str) -> (r: Result<Point3D, MotionError>)
    ensures
        r == parse_point_spec(s@),
{
    let n = s.unicode_len();
    let mut c1: usize = 0;
    while c1 < n && s.get_char(c1) != ','
        invariant
            0 <= c1 <= n == s@.len(),
            forall|k: int| 0 <= k < c1 ==> s@[k] != ',',
        decreases n - c1,
    {
        c1 = c1 + 1;
    }
    proof {
        lemma_first_where_is(s@, comma_p(), c1 as int);
    }
    if c1 == n {
        return Err(MotionError::FormatError);
    }
    let ghost r1 = s@.subrange(c1 + 1, n as int);
    let mut c2: usize = c1 + 1;
    while c2 < n && s.get_char(c2) != ','
        invariant
            c1 + 1 <= c2 <= n == s@.len(),
            forall|k: int| c1 + 1 <= k < c2 ==> s@[k] != ',',
        decreases n - c2,
    {
        c2 = c2 + 1;
    }
    proof {
        assert forall|k: int| 0 <= k < c2 - c1 - 1 implies !(comma_p())(r1[k]) by {
            assert(r1[k] == s@[k + c1 + 1]);
        }
        if c2 < n {
            assert(r1[c2 - c1 - 1] == s@[c2 as int]);
        }
        lemma_first_where_is(r1, comma_p(), c2 - c1 - 1);
    }
    if c2 == n {
        return Err(MotionError::FormatError);
    }
    let ghost r2 = r1.subrange(c2 - c1, r1.len() as int);
    let mut c3: usize = c2 + 1;
    while c3 < n && s.get_char(c3) != ','
        invariant
            c2 + 1 <= c3 <= n == s@.len(),
            forall|k: int| c2 + 1 <= k < c3 ==> s@[k] != ',',
        decreases n - c3,
    {
        c3 = c3 + 1;
    }
    proof {
        assert(forall|k: int| 0 <= k < r2.len() ==> r2[k] == s@[k + c2 + 1]);
        assert forall|k: int| 0 <= k < c3 - c2 - 1 implies !(comma_p())(r2[k]) by {
            assert(r2[k] == s@[k + c2 + 1]);
        }
        if c3 < n {
            assert(r2[c3 - c2 - 1] == s@[c3 as int]);
        }
        lemma_first_where_is(r2, comma_p(), c3 - c2 - 1);
    }
    if c3 < n {
        return Err(MotionError::FormatError);
    }
    let f1 = s.substring_char(0, c1);
    let f2 = s.substring_char(c1 + 1, c2);
    let f3 = s.substring_char(c2 + 1, n);
    proof {
        assert(f1@ =~= s@.subrange(0, c1 as int));
        assert(f2@ =~= r1.subrange(0, c2 - c1 - 1));
        assert(f3@ =~= r2);
    }
    let x = match parse_scalar(f1) {
        Some(v) => v,
        None => {
            return Err(MotionError::NumericParseError);
        },
    };
    let y = match parse_scalar(f2) {
        Some(v) => v,
        None => {
            return Err(MotionError::NumericParseError);
        },
    };
    let z = match parse_scalar(f3) {
        Some(v) => v,
        None => {
            return Err(MotionError::NumericParseError);
        },
    };
    Ok(Point3D { x, y, z })
}

/// What a linear command parses to: exactly three tokens, the second and
/// third of which are point literals giving start and end.
pub open spec fn parse_linear_spec(s: Seq<char>) -> Result<(Point3D, Point3D), MotionError> {
    let toks = tokens_of(s);
    if toks.len() != 3 {
        Err(MotionError::FormatError)
    } else {
        match parse_point_spec(toks[1]) {
            Err(e) => Err(e),
            Ok(start) => match parse_point_spec(toks[2]) {
                Err(e) => Err(e),
                Ok(end) => Ok((start, end)),
            },
        }
    }
}

/// Parses a linear command: `linear <start-point> <end-point>`.
pub fn parse_linear_motion(line: &str) -> (r: Result<(Point3D, Point3D), MotionError>)
    ensures
        r == parse_linear_spec(line@),
{
    let toks = tokenize(line);
    proof {
        assert(toks@.map_values(|t: String| t@).len() == toks@.len());
    }
    if toks.len() != 3 {
        return Err(MotionError::FormatError);
    }
    proof {
        assert(tokens_of(line@)[1] == toks@.map_values(|t: String| t@)[1]);
        assert(tokens_of(line@)[2] == toks@.map_values(|t: String| t@)[2]);
    }
    let start = match parse_point(toks[1].as_str()) {
        Ok(p) => p,
        Err(e) => {
            return Err(e);
        },
    };
    let end = match parse_point(toks[2].as_str()) {
        Ok(p) => p,
        Err(e) => {
            return Err(e);
        },
    };
    Ok((start, end))
}

/// What a rotational command parses to: exactly five tokens — keyword,
/// center point, radius, direction word, stop angle in degrees.
pub open spec fn parse_rotational_spec(s: Seq<char>) -> Result<
    (Circle, i64, RotationDirection),
    MotionError,
> {
    let toks = tokens_of(s);
    if toks.len() != 5 {
        Err(MotionError::FormatError)
    } else {
        match parse_point_spec(toks[1]) {
            Err(e) => Err(e),
            Ok(center) => match scalar_of(toks[2]) {
                None => Err(MotionError::NumericParseError),
                Some(radius) => {
                    if toks[3] == "clockwise"@ {
                        match scalar_of(toks[4]) {
                            None => Err(MotionError::NumericParseError),
                            Some(stop) => Ok(
                                (Circle { center, radius }, stop, RotationDirection::Clockwise),
                            ),
                        }
                    } else if toks[3] == "counterclockwise"@ {
                        match scalar_of(toks[4]) {
                            None => Err(MotionError::NumericParseError),
                            Some(stop) => Ok(
                                (
                                    Circle { center, radius },
                                    stop,
                                    RotationDirection::Counterclockwise,
                                ),
                            ),
                        }
                    } else {
                        Err(MotionError::InvalidDirectionError)
                    }
                },
            },
        }
    }
}

/// Parses a rotational command:
/// `rotational <center-point> <radius> <clockwise|counterclockwise> <stop-angle>`.
pub fn parse_rotational_motion(line: &str) -> (r: Result<
    (Circle, i64, RotationDirection),
    MotionError,
>)
    ensures
        r == parse_rotational_spec(line@),
{
    let toks = tokenize(line);
    proof {
        assert(toks@.map_values(|t: String| t@).len() == toks@.len());
    }
    if toks.len() != 5 {
        return Err(MotionError::FormatError);
    }
    proof {
        assert(tokens_of(line@)[1] == toks@.map_values(|t: String| t@)[1]);
        assert(tokens_of(line@)[2] == toks@.map_values(|t: String| t@)[2]);
        assert(tokens_of(line@)[3] == toks@.map_values(|t: String| t@)[3]);
        assert(tokens_of(line@)[4] == toks@.map_values(|t: String| t@)[4]);
    }
    let center = match parse_point(toks[1].as_str()) {
        Ok(p) => p,
        Err(e) => {
            return Err(e);
        },
    };
    let radius = match parse_scalar(toks[2].as_str()) {
        Some(v) => v,
        None => {
            return Err(MotionError::NumericParseError);
        },
    };
    let direction = if str_eq(toks[3].as_str(), "clockwise") {
        RotationDirection::Clockwise
    } else if str_eq(toks[3].as_str(), "counterclockwise") {
        RotationDirection::Counterclockwise
    } else {
        return Err(MotionError::InvalidDirectionError);
    };
    let stop_angle = match parse_scalar(toks[4].as_str()) {
        Some(v) => v,
        None => {
            return Err(MotionError::NumericParseError);
        },
    };
    Ok((Circle { center, radius }, stop_angle, direction))
}

} // verus!
