use tape_sort::parse::ParseError;
use tape_sort::record::{Point, Triangle};

#[test]
fn point_text_parses() {
    assert_eq!(Point::parse(b"(1,2)"), Ok(Point { x: 1, y: 2 }));
    assert_eq!(Point::parse(b"(-7,+9)"), Ok(Point { x: -7, y: 9 }));
    assert_eq!(Point::parse(b"3,4"), Ok(Point { x: 3, y: 4 }));
    assert_eq!(
        Point::parse(b"(2147483647,-2147483648)"),
        Ok(Point { x: 2147483647, y: -2147483648 })
    );
}

#[test]
fn point_text_shape_errors() {
    assert_eq!(Point::parse(b""), Err(ParseError::BadShape));
    assert_eq!(Point::parse(b"(1)"), Err(ParseError::BadShape));
    assert_eq!(Point::parse(b"(1,2,3)"), Err(ParseError::BadShape));
    assert_eq!(Point::parse(b"(1, 2)"), Err(ParseError::BadShape));
    assert_eq!(Point::parse(b"(a,2)"), Err(ParseError::BadShape));
    assert_eq!(Point::parse(b"(-,2)"), Err(ParseError::BadShape));
}

#[test]
fn point_text_range_errors() {
    assert_eq!(Point::parse(b"(2147483648,0)"), Err(ParseError::OutOfRange));
    assert_eq!(Point::parse(b"(0,-2147483649)"), Err(ParseError::OutOfRange));
}

#[test]
fn triangle_text_parses() {
    let t = Triangle::parse(b"{(0,0),(4,0),(0,3)}").unwrap();
    assert_eq!(
        t,
        Triangle {
            a: Point { x: 0, y: 0 },
            b: Point { x: 4, y: 0 },
            c: Point { x: 0, y: 3 },
        }
    );
    assert_eq!(t.doubled_area(), 12);
    // separators between the groups are free-form
    let u = Triangle::parse(b"(1,2) (3,4) (5,6)").unwrap();
    assert_eq!(
        u,
        Triangle {
            a: Point { x: 1, y: 2 },
            b: Point { x: 3, y: 4 },
            c: Point { x: 5, y: 6 },
        }
    );
}

#[test]
fn triangle_text_errors() {
    assert_eq!(Triangle::parse(b""), Err(ParseError::BadShape));
    assert_eq!(Triangle::parse(b"{(1,2),(3,4)}"), Err(ParseError::BadShape));
    assert_eq!(
        Triangle::parse(b"(1,2)(3,4)(5,6)(7,8)"),
        Err(ParseError::BadShape)
    );
    assert_eq!(
        Triangle::parse(b"(1,2)(3,4)(5,2147483648)"),
        Err(ParseError::OutOfRange)
    );
}
