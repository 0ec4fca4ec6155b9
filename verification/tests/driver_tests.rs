use toolpath::geom::{Point3D, MotionError};
use toolpath::driver::{run, SampledMotion};

fn lines(ls: &[&str]) -> Vec<String> {
    ls.iter().map(|l| l.to_string()).collect()
}

#[test]
fn run_samples_recognized_commands_in_order() {
    let input = lines(&[
        "linear 0,0,0 3,4,0",
        "note: unrecognized keywords are skipped",
        "rotational 0,0,0 1 counterclockwise 90",
    ]);
    let outs = run(&input).unwrap();
    assert_eq!(outs.len(), 2);
    match &outs[0] {
        SampledMotion::Linear { points } => {
            assert_eq!(points.len(), 6);
            assert_eq!(points[0], Point3D { x: 0, y: 0, z: 0 });
            assert_eq!(points[5], Point3D { x: 3_000_000, y: 4_000_000, z: 0 });
        }
        other => panic!("expected a linear motion, got {:?}", other),
    }
    match &outs[1] {
        SampledMotion::Rotational { circle, angles } => {
            assert_eq!(circle.center, Point3D { x: 0, y: 0, z: 0 });
            assert_eq!(circle.radius, 1_000_000);
            assert_eq!(angles.len(), 19);
            assert_eq!(angles[18], 90_000_000);
        }
        other => panic!("expected a rotational motion, got {:?}", other),
    }
}

#[test]
fn run_of_nothing_is_empty() {
    let outs = run(&Vec::new()).unwrap();
    assert!(outs.is_empty());
}

#[test]
fn run_stops_at_first_error() {
    let input = lines(&[
        "linear 0,0,0 1,0,0",
        "linear 1,2",
        "rotational 0,0,0 1 sideways 90",
    ]);
    assert!(matches!(run(&input), Err(MotionError::FormatError)));
}

#[test]
fn run_reports_invalid_direction() {
    let input = lines(&["rotational 0,0,0 1 sideways 90"]);
    assert!(matches!(run(&input), Err(MotionError::InvalidDirectionError)));
}

#[test]
fn run_reports_numeric_error() {
    let input = lines(&["linear 0,0,zero 1,1,1"]);
    assert!(matches!(run(&input), Err(MotionError::NumericParseError)));
}

#[test]
fn run_keeps_direction_of_rotational_commands() {
    let input = lines(&["rotational 1,1,0 2 clockwise 10"]);
    let outs = run(&input).unwrap();
    match &outs[0] {
        SampledMotion::Rotational { angles, .. } => {
            assert_eq!(angles.as_slice(), &[0, -5_000_000, -10_000_000]);
        }
        other => panic!("expected a rotational motion, got {:?}", other),
    }
}
