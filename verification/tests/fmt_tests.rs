use toolpath::geom::Point3D;
use toolpath::fmt::{format_scalar, format_point};
use toolpath::parse::parse_point;

#[test]
fn scalar_formats_with_six_fraction_digits() {
    assert_eq!(format_scalar(1_500_000), "1.500000");
    assert_eq!(format_scalar(0), "0.000000");
    assert_eq!(format_scalar(-1_000_000), "-1.000000");
    assert_eq!(format_scalar(1), "0.000001");
    assert_eq!(format_scalar(12_345_678), "12.345678");
}

#[test]
fn point_formats_comma_space_separated() {
    let p = Point3D { x: 1_500_000, y: 2_000_000, z: 3_250_000 };
    assert_eq!(format_point(&p), "1.500000, 2.000000, 3.250000");
}

#[test]
fn format_then_parse_round_trips_exactly() {
    let points = [
        Point3D { x: 0, y: 0, z: 0 },
        Point3D { x: 1_500_000, y: -2_250_000, z: 3 },
        Point3D { x: -100_000_000_000_000_000, y: 100_000_000_000_000_000, z: 999_999 },
        Point3D { x: 123, y: -456, z: 789_012_345 },
    ];
    for p in points {
        let text = format_point(&p);
        assert_eq!(parse_point(text.as_str()), Ok(p));
    }
}
