use eew_renderer::line::Line;
use eew_renderer::point::Point;

fn pt(lat: f32, lon: f32) -> Point {
    Point::new(lat.to_bits(), lon.to_bits())
}

#[test]
fn line_equal_to_self() {
    let line = Line::new(&vec![
        pt(0.0, 0.0),
        pt(1.0, 1.0),
        pt(2.0, 2.0),
        pt(3.0, 3.0),
    ]);

    assert_eq!(line, line);
}

#[test]
fn line_equal_to_reversed() {
    let line1 = Line::new(&vec![
        pt(0.0, 0.0),
        pt(1.0, 1.0),
        pt(2.0, 2.0),
        pt(3.0, 3.0),
    ]);

    let line2 = Line::new(&vec![
        pt(3.0, 3.0),
        pt(2.0, 2.0),
        pt(1.0, 1.0),
        pt(0.0, 0.0),
    ]);

    assert_eq!(line1, line2);
}

#[test]
fn line_eq() {
    let l1 = vec![
        pt(0.0, 0.0),
        pt(1.0, 1.0),
        pt(2.0, 2.0),
        pt(3.0, 3.0),
    ];
    let l2 = vec![
        pt(3.0, 3.0),
        pt(2.0, 2.0),
        pt(1.0, 1.0),
        pt(0.0, 0.0),
    ];
    let l1 = Line::new(&l1);
    let l2 = Line::new(&l2);

    assert_eq!(l1, l1);
    assert_eq!(l1, l2);
}

#[test]
fn line_exec_reverse_matches() {
    let line = Line::new(&vec![pt(0.0, 0.0), pt(1.0, 0.5), pt(2.0, 2.0)]);
    let rev = line.reverse();
    assert_eq!(line, rev);
    assert_eq!(rev, line);
}

#[test]
fn lines_with_different_points_differ() {
    let a = Line::new(&vec![pt(0.0, 0.0), pt(1.0, 1.0)]);
    let b = Line::new(&vec![pt(0.0, 0.0), pt(2.0, 2.0)]);
    assert!(a != b);
}
