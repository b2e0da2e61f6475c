use polyomino::geometry::{Point, Size};
use polyomino::tile::Tile;

#[test]
fn point() {
    let point1 = Point::new(1, 2);
    let point2 = Point::new(3, 4);

    assert_eq!(-point1.clone(), Point::new(-1, -2));
    assert_eq!(point1 + point2, Point::new(4, 6));
}

#[test]
fn board() {
    // New
    let board = Tile::new("Board");
    assert_eq!(board.size(), Size::new(0, 0));

    // From string
    let contents = "xxx-xx\nxxxx-";
    let board = Tile::from_str("Board", &contents);

    assert!(board.points.contains(&Point::new(0, 0)));
    assert!(board.points.contains(&Point::new(3, 1)));
    assert!(!board.points.contains(&Point::new(3, 0)))
}

#[test]
fn tile() {
    // Empty
    let mut tile = Tile::new("X");
    tile.rotate();
    tile.mirror();
    tile.translate(&Point::new(1, 1));

    // From str
    let contents = "xxx-xx\nxxxx-";
    let mut tile = Tile::from_str("X", &contents);

    assert_eq!(tile.points[0], Point::new(0, 0));
    assert_eq!(tile.points[1], Point::new(1, 0));
    assert_eq!(tile.points[8], Point::new(3, 1));

    tile.mirror();
    assert_eq!(tile.points[0], Point::new(0, 0));
    assert_eq!(tile.points[1], Point::new(-1, 0));
    assert_eq!(tile.points[8], Point::new(-3, 1));

    tile.rotate();
    assert_eq!(tile.points[0], Point::new(0, 0));
    assert_eq!(tile.points[1], Point::new(0, 1));
    assert_eq!(tile.points[8], Point::new(1, 3));

    tile.translate(&Point::new(1, 2));
    assert_eq!(tile.points[0], Point::new(1, 2));
    assert_eq!(tile.points[1], Point::new(1, 3));
    assert_eq!(tile.points[8], Point::new(2, 5));

    let point = tile.offset();
    assert_eq!(point, Point::new(1, 2));

    tile.translate(&-point);
    assert_eq!(tile.points[0], Point::new(0, 0));
    assert_eq!(tile.points[1], Point::new(0, 1));
    assert_eq!(tile.points[8], Point::new(1, 3));
}

#[test]
fn point_subtracts() {
    assert_eq!(Point::new(5, 1) - Point::new(2, 4), Point::new(3, -3));
}

#[test]
fn point_from_scan_position() {
    assert_eq!(Point::from(&3usize, &7usize), Point::new(3, 7));
}

#[test]
fn normalize_anchors_and_sorts() {
    let mut tile = Tile::new("T");
    tile.points = vec![Point::new(5, 3), Point::new(4, 4), Point::new(4, 3), Point::new(6, 3)];
    tile.normalize();
    assert_eq!(
        tile.points,
        vec![Point::new(0, 0), Point::new(0, 1), Point::new(1, 0), Point::new(2, 0)]
    );
}

#[test]
fn four_turns_and_two_reflections_cancel() {
    let start = Tile::from_str("L", "xxx\nx");
    let mut want = start.clone();
    want.normalize();

    let mut turned = start.clone();
    for _ in 0..4 {
        turned.rotate();
    }
    turned.normalize();
    assert_eq!(turned.points, want.points);

    let mut flipped = start.clone();
    flipped.mirror();
    flipped.mirror();
    flipped.normalize();
    assert_eq!(flipped.points, want.points);
}

#[test]
fn size_is_the_bounding_box() {
    let mut tile = Tile::new("T");
    tile.points = vec![Point::new(-2, 7), Point::new(1, 9)];
    assert_eq!(tile.size(), Size::new(4, 3));
    assert_eq!(tile.len(), 2);
}

#[test]
fn index_finds_the_first_equal_point() {
    let tile = Tile::from_str("T", "x x\nxx");
    assert_eq!(tile.index(&Point::new(2, 0)), Some(1));
    assert_eq!(tile.index(&Point::new(1, 0)), None);
}

#[test]
fn from_str_without_cells_is_empty() {
    let tile = Tile::from_str("E", " .\n\n");
    assert_eq!(tile.len(), 0);
    assert_eq!(tile.size(), Size::new(0, 0));
}
