//! The driver: dispatches raw command lines to the parsers and samplers.
//! It consumes lines that were already read, and hands sampled motions
//! back; reading input and presenting points stay with the caller.

use vstd::prelude::*;
use crate::geom::{Point3D, Circle, RotationDirection, MotionError};
use crate::linear::{lin_points, calculate_linear_positions};
use crate::rotational::{arc_angles, calculate_rotational_positions};
use crate::parse::{
    parse_linear_spec, parse_rotational_spec, parse_linear_motion, parse_rotational_motion,
    lemma_parsed_point_wf, lemma_scalar_in_range,
};
use crate::scan::{spec_has_prefix, has_prefix, tokens_of};

verus! {

/// One sampled motion: the waypoints of a linear command, or the circle
/// and visited angles of a rotational one (the caller projects angles
/// onto the circle).
#[derive(Debug)]
pub enum SampledMotion {
    Linear { points: Vec<Point3D> },
    Rotational { circle: Circle, angles: Vec<i64> },
}

/// The mathematical shadow of a `SampledMotion`.
pub enum SampledMotionView {
    Linear { points: Seq<Point3D> },
    Rotational { circle: Circle, angles: Seq<int> },
}

impl View for SampledMotion {
    type V = SampledMotionView;

    open spec fn view(&self) -> SampledMotionView {
        match self {
            SampledMotion::Linear { points } => SampledMotionView::Linear { points: points@ },
            SampledMotion::Rotational { circle, angles } => SampledMotionView::Rotational {
                circle: *circle,
                angles: angles@.map_values(|a: i64| a as int),
            },
        }
    }
}

/// What one command line produces: a sampled motion, nothing for an
/// unrecognized keyword (such lines are skipped silently), or the first
/// error its parse raises.
pub open spec fn line_out(l: Seq<char>) -> Result<Option<SampledMotionView>, MotionError> {
    if spec_has_prefix(l, "linear"@) {
        match parse_linear_spec(l) {
            Err(e) => Err(e),
            Ok(m) => Ok(
                Some(SampledMotionView::Linear { points: lin_points(m.0, m.1) }),
            ),
        }
    } else if spec_has_prefix(l, "rotational"@) {
        match parse_rotational_spec(l) {
            Err(e) => Err(e),
            Ok(m) => Ok(
                Some(
                    SampledMotionView::Rotational {
                        circle: m.0,
                        angles: arc_angles(m.1 as int, m.2),
                    },
                ),
            ),
        }
    } else {
        Ok(None)
    }
}

/// What a whole run produces: the sampled motions of the recognized
/// lines in order, or the error of the first failing line.
pub open spec fn run_spec(lines: Seq<Seq<char>>) -> Result<Seq<SampledMotionView>, MotionError>
    decreases lines.len(),
{
    if lines.len() == 0 {
        Ok(Seq::empty())
    } else {
        match run_spec(lines.drop_last()) {
            Err(e) => Err(e),
            Ok(outs) => match line_out(lines.last()) {
                Err(e) => Err(e),
                Ok(None) => Ok(outs),
                Ok(Some(o)) => Ok(outs.push(o)),
            },
        }
    }
}

/// A failure on any prefix of the lines is the failure of the whole run.
proof fn lemma_run_spec_err(lines: Seq<Seq<char>>, j: int, e: MotionError)
    requires
        0 <= j <= lines.len(),
        run_spec(lines.take(j)) == Err::<Seq<SampledMotionView>, MotionError>(e),
    ensures
        run_spec(lines) == Err::<Seq<SampledMotionView>, MotionError>(e),
    decreases lines.len() - j,
{
    if j < lines.len() {
        assert(lines.take(j + 1).drop_last() =~= lines.take(j));
        assert(lines.take(j + 1).last() == lines[j]);
        lemma_run_spec_err(lines, j + 1, e);
    } else {
        assert(lines.take(j) =~= lines);
    }
}

/// Processes command lines in order: parses and samples every recognized
/// command, skips unrecognized keywords, and stops at the first error.
pub fn run(lines: &Vec<String>) -> (r: Result<Vec<SampledMotion>, MotionError>)
    ensures
        ({
            let lv = lines@.map_values(|l: String| l@);
            match r {
                Ok(outs) => run_spec(lv) == Ok::<_, MotionError>(
                    outs@.map_values(|m: SampledMotion| m@),
                ),
                Err(e) => run_spec(lv) == Err::<Seq<SampledMotionView>, MotionError>(e),
            }
        }),
{
    let ghost lv = lines@.map_values(|l: String| l@);
    let mut outs: Vec<SampledMotion> = Vec::new();
    let mut i: usize = 0;
    proof {
        assert(lv.take(0) =~= Seq::<Seq<char>>::empty());
        assert(outs@.map_values(|m: SampledMotion| m@) =~= Seq::<SampledMotionView>::empty());
    }
    while i < lines.len()
        invariant
            0 <= i <= lines.len(),
            lv == lines@.map_values(|l: String| l@),
            run_spec(lv.take(i as int)) == Ok::<_, MotionError>(
                outs@.map_values(|m: SampledMotion| m@),
            ),
        decreases lines.len() - i,
    {
        let line = &lines[i];
        let ghost prev = outs@.map_values(|m: SampledMotion| m@);
        proof {
            assert(lv.take(i + 1).drop_last() =~= lv.take(i as int));
            assert(lv.take(i + 1).last() == line@);
        }
        if has_prefix(line.as_str(), "linear") {
            match parse_linear_motion(line.as_str()) {
                Err(e) => {
                    proof {
                        lemma_run_spec_err(lv, i + 1, e);
                    }
                    return Err(e);
                },
                Ok((start, end)) => {
                    proof {
                        lemma_parsed_point_wf(tokens_of(line@)[1]);
                        lemma_parsed_point_wf(tokens_of(line@)[2]);
                    }
                    let pts = calculate_linear_positions(start, end);
                    outs.push(SampledMotion::Linear { points: pts });
                    proof {
                        assert(outs@.map_values(|m: SampledMotion| m@) =~= prev.push(
                            SampledMotionView::Linear { points: lin_points(start, end) },
                        ));
                        assert(run_spec(lv.take(i + 1)) == Ok::<_, MotionError>(
                            outs@.map_values(|m: SampledMotion| m@),
                        ));
                    }
                },
            }
        } else if has_prefix(line.as_str(), "rotational") {
            match parse_rotational_motion(line.as_str()) {
                Err(e) => {
                    proof {
                        lemma_run_spec_err(lv, i + 1, e);
                    }
                    return Err(e);
                },
                Ok((circle, stop_angle, direction)) => {
                    proof {
                        lemma_scalar_in_range(tokens_of(line@)[4]);
                    }
                    let angles = calculate_rotational_positions(stop_angle, direction);
                    outs.push(SampledMotion::Rotational { circle, angles });
                    proof {
                        assert(outs@.map_values(|m: SampledMotion| m@) =~= prev.push(
                            SampledMotionView::Rotational {
                                circle,
                                angles: arc_angles(stop_angle as int, direction),
                            },
                        ));
                        assert(run_spec(lv.take(i + 1)) == Ok::<_, MotionError>(
                            outs@.map_values(|m: SampledMotion| m@),
                        ));
                    }
                },
            }
        } else {
            proof {
                assert(line_out(line@) == Ok::<Option<SampledMotionView>, MotionError>(None));
                assert(run_spec(lv.take(i + 1)) == Ok::<_, MotionError>(prev));
            }
        }
        i = i + 1;
    }
    proof {
        assert(lv.take(lines@.len() as int) =~= lv);
    }
    Ok(outs)
}

} // verus!
