use toolpath::geom::{Point3D, MotionError, RotationDirection};
use toolpath::parse::{parse_point, parse_linear_motion, parse_rotational_motion};

#[test]
fn point_parses_integers() {
    let p = parse_point("1, 2, 3").unwrap();
    assert_eq!(p, Point3D { x: 1_000_000, y: 2_000_000, z: 3_000_000 });
}

#[test]
fn point_parses_fractions_and_signs() {
    let p = parse_point("1.5, -2.25, 0.000001").unwrap();
    assert_eq!(p, Point3D { x: 1_500_000, y: -2_250_000, z: 1 });
}

#[test]
fn point_parses_odd_whitespace() {
    let p = parse_point("  7 ,\t-0.5 ,  +2. ").unwrap();
    assert_eq!(p, Point3D { x: 7_000_000, y: -500_000, z: 2_000_000 });
}

#[test]
fn point_truncates_extra_fraction_digits() {
    let p = parse_point("0.1234567, 0, 0").unwrap();
    assert_eq!(p.x, 123_456);
}

#[test]
fn point_with_two_fields_is_format_error() {
    assert_eq!(parse_point("1,2"), Err(MotionError::FormatError));
}

#[test]
fn point_with_four_fields_is_format_error() {
    assert_eq!(parse_point("1,2,3,4"), Err(MotionError::FormatError));
}

#[test]
fn point_with_bad_number_is_numeric_error() {
    assert_eq!(parse_point("a, 2, 3"), Err(MotionError::NumericParseError));
    assert_eq!(parse_point("1, 2, 3x"), Err(MotionError::NumericParseError));
    assert_eq!(parse_point("1, , 3"), Err(MotionError::NumericParseError));
    assert_eq!(parse_point("1.2.3, 0, 0"), Err(MotionError::NumericParseError));
}

#[test]
fn point_out_of_range_is_numeric_error() {
    // beyond the representable fixed-point range
    assert_eq!(
        parse_point("200000000000, 0, 0"),
        Err(MotionError::NumericParseError)
    );
}

#[test]
fn linear_command_parses() {
    let (s, e) = parse_linear_motion("linear 0,0,0 3,4,0").unwrap();
    assert_eq!(s, Point3D { x: 0, y: 0, z: 0 });
    assert_eq!(e, Point3D { x: 3_000_000, y: 4_000_000, z: 0 });
}

#[test]
fn linear_command_wrong_token_count() {
    assert_eq!(
        parse_linear_motion("linear 0,0,0"),
        Err(MotionError::FormatError)
    );
    assert_eq!(
        parse_linear_motion("linear 0,0,0 1,1,1 2,2,2"),
        Err(MotionError::FormatError)
    );
}

#[test]
fn rotational_command_parses() {
    let (c, stop, d) = parse_rotational_motion("rotational 1,2,3 2.5 clockwise 45").unwrap();
    assert_eq!(c.center, Point3D { x: 1_000_000, y: 2_000_000, z: 3_000_000 });
    assert_eq!(c.radius, 2_500_000);
    assert_eq!(stop, 45_000_000);
    assert_eq!(d, RotationDirection::Clockwise);
}

#[test]
fn rotational_counterclockwise_parses() {
    let (_, _, d) =
        parse_rotational_motion("rotational 0,0,0 1 counterclockwise 90").unwrap();
    assert_eq!(d, RotationDirection::Counterclockwise);
}

#[test]
fn rotational_invalid_direction() {
    assert_eq!(
        parse_rotational_motion("rotational 0,0,0 1 sideways 90"),
        Err(MotionError::InvalidDirectionError)
    );
}

#[test]
fn rotational_wrong_token_count() {
    assert_eq!(
        parse_rotational_motion("rotational 0,0,0 1 clockwise"),
        Err(MotionError::FormatError)
    );
}

#[test]
fn rotational_bad_radius_is_numeric_error() {
    assert_eq!(
        parse_rotational_motion("rotational 0,0,0 wide clockwise 90"),
        Err(MotionError::NumericParseError)
    );
}
