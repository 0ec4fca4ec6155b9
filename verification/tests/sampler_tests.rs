use toolpath::geom::{Point3D, RotationDirection};
use toolpath::linear::calculate_linear_positions;
use toolpath::rotational::calculate_rotational_positions;

fn pt(x: i64, y: i64, z: i64) -> Point3D {
    Point3D { x, y, z }
}

#[test]
fn degenerate_linear_is_single_start_point() {
    let s = pt(5_000_000, -2_000_000, 1_000_000);
    let pts = calculate_linear_positions(s, s);
    assert_eq!(pts.len(), 1);
    assert_eq!(pts[0], s);
}

#[test]
fn linear_shorter_than_one_unit_is_single_start_point() {
    let s = pt(0, 0, 0);
    let e = pt(500_000, 0, 0);
    let pts = calculate_linear_positions(s, e);
    assert_eq!(pts.len(), 1);
    assert_eq!(pts[0], s);
}

#[test]
fn linear_three_four_zero_gives_six_points() {
    // distance 5, so floor(5) = 5 steps and 6 points
    let s = pt(0, 0, 0);
    let e = pt(3_000_000, 4_000_000, 0);
    let pts = calculate_linear_positions(s, e);
    assert_eq!(pts.len(), 6);
    assert_eq!(pts[0], s);
    assert_eq!(pts[1], pt(600_000, 800_000, 0));
    assert_eq!(pts[4], pt(2_400_000, 3_200_000, 0));
    assert_eq!(pts[5], e);
}

#[test]
fn linear_endpoints_are_exact() {
    let s = pt(-1_000_000, 2_000_000, 3_000_000);
    let e = pt(4_000_000, -5_000_000, 6_000_000);
    let pts = calculate_linear_positions(s, e);
    assert_eq!(*pts.first().unwrap(), s);
    assert_eq!(*pts.last().unwrap(), e);
}

#[test]
fn linear_intermediate_points_lie_on_segment() {
    let s = pt(0, 0, 0);
    let e = pt(3_000_000, 4_000_000, 0);
    let pts = calculate_linear_positions(s, e);
    for p in &pts {
        let (dx, dy, dz) = (3.0f64, 4.0, 0.0);
        let (px, py, pz) = (
            p.x as f64 / 1e6,
            p.y as f64 / 1e6,
            p.z as f64 / 1e6,
        );
        // cross product of (p - s) and (e - s) vanishes within tolerance
        let cx = py * dz - pz * dy;
        let cy = pz * dx - px * dz;
        let cz = px * dy - py * dx;
        assert!(cx.abs() < 1e-6 && cy.abs() < 1e-6 && cz.abs() < 1e-6);
    }
}

#[test]
fn rotational_quarter_circle_counterclockwise() {
    // ceil(90 / 5) = 18 steps, hence 19 samples
    let angles = calculate_rotational_positions(90_000_000, RotationDirection::Counterclockwise);
    assert_eq!(angles.len(), 19);
    assert_eq!(angles[0], 0);
    assert_eq!(angles[1], 5_000_000);
    assert_eq!(angles[18], 90_000_000);
    // projected onto a unit circle at the origin: first (1,0), last (0,1)
    let first = (angles[0] as f64 / 1e6).to_radians();
    let last = (angles[18] as f64 / 1e6).to_radians();
    assert!((first.cos() - 1.0).abs() < 1e-6 && first.sin().abs() < 1e-6);
    assert!(last.cos().abs() < 1e-6 && (last.sin() - 1.0).abs() < 1e-6);
}

#[test]
fn rotational_clockwise_mirrors_counterclockwise() {
    let ccw = calculate_rotational_positions(30_000_000, RotationDirection::Counterclockwise);
    let cw = calculate_rotational_positions(30_000_000, RotationDirection::Clockwise);
    assert_eq!(ccw.len(), cw.len());
    for (a, b) in ccw.iter().zip(cw.iter()) {
        assert_eq!(*a, -*b);
    }
}

#[test]
fn rotational_zero_angle_is_single_sample() {
    let angles = calculate_rotational_positions(0, RotationDirection::Clockwise);
    assert_eq!(angles, vec![0]);
}

#[test]
fn rotational_negative_stop_angle() {
    // |−10| degrees is two 5-degree steps; counterclockwise follows the
    // stop angle's own sign downward
    let angles = calculate_rotational_positions(-10_000_000, RotationDirection::Counterclockwise);
    assert_eq!(angles, vec![0, -5_000_000, -10_000_000]);
    let mirrored = calculate_rotational_positions(-10_000_000, RotationDirection::Clockwise);
    assert_eq!(mirrored, vec![0, 5_000_000, 10_000_000]);
}

#[test]
fn rotational_uneven_angle_rounds_steps_up() {
    // ceil(7 / 5) = 2 steps: samples at 0, 3.5, 7 degrees
    let angles = calculate_rotational_positions(7_000_000, RotationDirection::Counterclockwise);
    assert_eq!(angles, vec![0, 3_500_000, 7_000_000]);
}
