use gloom::gl_debug::{report_severity, severity_name, Severity};
use gloom::transform::{rotation_layout, Axis, Entry};
use gloom::transform::Entry::{Cos, NegSin, One, Sin, Zero};

fn value(e: Entry, angle: f32) -> f32 {
    match e {
        Entry::Zero => 0.0,
        Entry::One => 1.0,
        Entry::Cos => angle.cos(),
        Entry::Sin => angle.sin(),
        Entry::NegSin => -angle.sin(),
    }
}

#[test]
fn rotation_layouts() {
    assert_eq!(
        rotation_layout(Axis::X),
        [[One, Zero, Zero, Zero], [Zero, Cos, Sin, Zero], [Zero, NegSin, Cos, Zero], [Zero, Zero, Zero, One]]
    );
    assert_eq!(
        rotation_layout(Axis::Y),
        [[Cos, Zero, NegSin, Zero], [Zero, One, Zero, Zero], [Sin, Zero, Cos, Zero], [Zero, Zero, Zero, One]]
    );
    assert_eq!(
        rotation_layout(Axis::Z),
        [[Cos, Sin, Zero, Zero], [NegSin, Cos, Zero, Zero], [Zero, Zero, One, Zero], [Zero, Zero, Zero, One]]
    );
}

#[test]
fn rotations_are_orthogonal() {
    for axis in [Axis::X, Axis::Y, Axis::Z] {
        let m = rotation_layout(axis);
        let angle = 0.7f32;
        for i in 0..4 {
            for j in 0..4 {
                let dot: f32 = (0..4).map(|k| value(m[i][k], angle) * value(m[j][k], angle)).sum();
                let expected = if i == j { 1.0 } else { 0.0 };
                assert!((dot - expected).abs() < 1e-6);
            }
        }
    }
}

#[test]
fn every_error_report_stops() {
    assert_eq!(report_severity(0x824C, 0x9146), Some(Severity::High));
    assert_eq!(report_severity(0x824C, 0x9147), Some(Severity::Medium));
    assert_eq!(report_severity(0x824C, 0x9148), Some(Severity::Low));
    assert_eq!(report_severity(0x824C, 0x826B), Some(Severity::Unknown));
    assert_eq!(report_severity(0x824C, 0), Some(Severity::Unknown));
    assert_eq!(report_severity(0x824D, 0x9146), None);
    assert_eq!(report_severity(0x9146, 0x824C), None);
}

#[test]
fn severity_names() {
    assert_eq!(severity_name(Severity::High), "high");
    assert_eq!(severity_name(Severity::Medium), "medium");
    assert_eq!(severity_name(Severity::Low), "low");
    assert_eq!(severity_name(Severity::Unknown), "unknown");
}

#[test]
fn rotations_about_one_axis_add_angles() {
    for axis in [Axis::X, Axis::Y, Axis::Z] {
        let m = rotation_layout(axis);
        let (a, b) = (0.4f32, -1.1f32);
        for i in 0..4 {
            for j in 0..4 {
                let ab: f32 = (0..4).map(|k| value(m[i][k], a) * value(m[k][j], b)).sum();
                let ba: f32 = (0..4).map(|k| value(m[i][k], b) * value(m[k][j], a)).sum();
                let sum = value(m[i][j], a + b);
                assert!((ab - sum).abs() < 1e-5);
                assert!((ba - sum).abs() < 1e-5);
            }
        }
        let det = value(m[0][0], a) * (value(m[1][1], a) * value(m[2][2], a) - value(m[1][2], a) * value(m[2][1], a))
            - value(m[0][1], a) * (value(m[1][0], a) * value(m[2][2], a) - value(m[1][2], a) * value(m[2][0], a))
            + value(m[0][2], a) * (value(m[1][0], a) * value(m[2][1], a) - value(m[1][1], a) * value(m[2][0], a));
        assert!((det - 1.0).abs() < 1e-5);
    }
}
