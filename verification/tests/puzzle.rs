use polyomino::dlx::Phase;
use polyomino::game::{orbit, Entry, Game};
use polyomino::geometry::Point;
use polyomino::tile::Tile;

#[test]
fn solve1() {
    // From string
    let contents = "xx\nxx";
    let board = Tile::from_str("Board", &contents);

    let mut tiles: Vec<Tile> = Vec::new();
    tiles.push(Tile::from_str("T1", "xx\nx"));
    tiles.push(Tile::from_str("T2", "x"));

    let mut game = Game {
        board: board,
        tiles: tiles,
    };

    let (_m, solutions) = game.solve();
    assert_eq!(solutions.len(), 4);
}

#[test]
fn solve2() {
    // From string
    let board = Tile::from_str("Board", "xxxxx\nxxxxx\nxxxxx\nxxxxx");

    let tiles: Vec<Tile> = vec![
        Tile::from_str("T1", "xxxx\n x  "),
        Tile::from_str("T2", "xxxx\n x  "),
        Tile::from_str("P1", "xxx\nxx "),
        Tile::from_str("P2", "xxx\nxx "),
    ];

    let mut game = Game {
        board: board,
        tiles: tiles,
    };
    assert_eq!(game.len(), 20);

    let (_m, solutions) = game.solve();
    assert_eq!(solutions.len(), 48);

    assert_eq!(solutions[0], vec!(0, 49, 120, 171));
}

#[test]
fn two_by_two_solutions_cover_the_board_with_both_pieces() {
    let mut game = Game::from_shapes("xx\nxx", &vec![("T1", "xx\nx"), ("T2", "x")]);
    let (m, solutions) = game.solve();
    assert_eq!(solutions.len(), 4);
    let mut singles: Vec<usize> = Vec::new();
    for s in &solutions {
        let board = game.decode(&m, s);
        assert_eq!(board.len(), 4);
        assert_eq!(board.iter().filter(|&&p| p == 0).count(), 3);
        assert_eq!(board.iter().filter(|&&p| p == 1).count(), 1);

        // two rows: the three cells of T1 and the one cell of T2
        assert_eq!(s.len(), 2);
        let mut rows: Vec<Vec<usize>> = s.iter().map(|&r| m.row(r)).collect();
        rows.sort_by_key(|r| r[r.len() - 1]);
        assert_eq!(rows[0].len(), 4);
        assert_eq!(rows[0][3], 4);
        assert_eq!(rows[1].len(), 2);
        assert_eq!(rows[1][1], 5);
        let mut cells: Vec<usize> = rows[0][..3].to_vec();
        cells.push(rows[1][0]);
        cells.sort();
        assert_eq!(cells, vec![0, 1, 2, 3]);
        singles.push(rows[1][0]);
    }
    singles.sort();
    assert_eq!(singles, vec![0, 1, 2, 3]);
}

#[test]
fn two_by_two_matrix_rows_in_order() {
    let mut game = Game::from_shapes("xx\nxx", &vec![("T1", "xx\nx"), ("T2", "x")]);
    let m = game.build_matrix();
    let want: Vec<Vec<usize>> = vec![
        vec![0, 1, 2, 4],
        vec![0, 2, 3, 4],
        vec![0, 1, 3, 4],
        vec![1, 2, 3, 4],
        vec![0, 5],
        vec![1, 5],
        vec![2, 5],
        vec![3, 5],
    ];
    let mut nodes = 7;
    for (r, row) in want.iter().enumerate() {
        assert_eq!(&m.row(r), row);
        nodes += row.len();
    }
    assert_eq!(m.node_count(), nodes);
}

#[test]
fn rows_are_named_by_position_in_the_order_of_selection() {
    let board = "xxxxx\nxxxxx\nxxxxx\nxxxxx";
    let shapes = vec![
        ("T1", "xxxx\n x  "),
        ("T2", "xxxx\n x  "),
        ("P1", "xxx\nxx "),
        ("P2", "xxx\nxx "),
    ];
    let mut game = Game::from_shapes(board, &shapes);
    let mut m = game.build_matrix();
    assert_eq!(m.node_count(), 25 + 216 * 6);
    assert_eq!(m.next_solution(), Some(vec![0, 49, 120, 171]));
    assert_eq!(m.next_solution(), Some(vec![0, 49, 188, 103]));
    let rest = m.all_solutions();
    assert_eq!(rest.len(), 46);
    assert_eq!(rest[45], vec![156, 74, 123, 39]);
    assert_eq!(m.row(0), vec![0, 5, 6, 10, 15, 20]);
    assert_eq!(m.row(215), vec![13, 14, 17, 18, 19, 23]);
}

#[test]
fn infeasible_puzzle_has_no_solution() {
    let mut game = Game::from_shapes("xxx", &vec![("A", "xx")]);
    let mut m = game.build_matrix();
    assert_eq!(m.next_solution(), None);
    assert_eq!(m.state(), Phase::Exhausted);
    let (_m, solutions) = game.solve();
    assert_eq!(solutions.len(), 0);
}

#[test]
fn square_piece_covers_the_square_once() {
    let mut game = Game::from_shapes("xx\nxx", &vec![("O", "xx\nxx")]);
    let (m, solutions) = game.solve();
    assert_eq!(solutions.len(), 1);
    assert_eq!(game.decode(&m, &solutions[0]), vec![0, 0, 0, 0]);
    assert_eq!(m.node_count(), 6 + 5);
}

#[test]
fn l_tetromino_has_eight_orientations() {
    let tile = Tile::from_str("L", "xxx\nx");
    let mut list: Vec<Entry> = Vec::new();
    orbit(&mut list, &tile, 0);
    assert_eq!(list.len(), 8);
}

#[test]
fn straight_piece_has_two_orientations() {
    let tile = Tile::from_str("I", "xxx");
    let mut list: Vec<Entry> = Vec::new();
    orbit(&mut list, &tile, 0);
    assert_eq!(list.len(), 2);
}

#[test]
fn l_tromino_has_four_orientations() {
    let tile = Tile::from_str("L", "xx\nx");
    let mut list: Vec<Entry> = Vec::new();
    orbit(&mut list, &tile, 0);
    assert_eq!(list.len(), 4);

    // all eight turns and reflections, counted by hand
    let mut seen: Vec<Vec<Point>> = Vec::new();
    let mut t = tile.clone();
    for o in 0..8 {
        if o == 4 {
            t.mirror();
        } else {
            t.rotate();
        }
        t.normalize();
        if !seen.contains(&t.points) {
            seen.push(t.points.clone());
        }
    }
    assert_eq!(seen.len(), 4);
    for e in &list {
        assert!(seen.contains(&e.points));
    }
}

#[test]
fn orientations_stand_in_ascending_order() {
    let tile = Tile::from_str("S", "xx\n xx");
    let mut list: Vec<Entry> = Vec::new();
    orbit(&mut list, &tile, 3);
    let got: Vec<Vec<(isize, isize)>> =
        list.iter().map(|e| e.points.iter().map(|p| (p.x, p.y)).collect()).collect();
    assert_eq!(
        got,
        vec![
            vec![(0, 0), (0, 1), (1, 1), (1, 2)],
            vec![(0, 0), (1, 0), (1, 1), (2, 1)],
            vec![(0, 1), (0, 2), (1, 0), (1, 1)],
            vec![(0, 1), (1, 0), (1, 1), (2, 0)],
        ]
    );
    assert!(list.iter().all(|e| e.index == 3));
}

#[test]
fn pieces_come_in_the_order_in_which_they_are_given() {
    // the names play no part
    let mut game = Game::from_shapes("xx", &vec![("B", "x"), ("A", "x")]);
    let m = game.build_matrix();
    assert_eq!(m.row(0), vec![0, 2]);
    assert_eq!(m.row(1), vec![1, 2]);
    assert_eq!(m.row(2), vec![0, 3]);
    assert_eq!(m.row(3), vec![1, 3]);
}

#[test]
fn anchors_go_line_by_line() {
    // the board has the cells (1, 0) and (0, 1), in this order
    let mut board = Tile::new("Board");
    board.points = vec![Point::new(1, 0), Point::new(0, 1)];
    let mut game = Game { board: board, tiles: vec![Tile::from_str("A", "x")] };
    let m = game.build_matrix();
    assert_eq!(m.row(0), vec![0, 2]);
    assert_eq!(m.row(1), vec![1, 2]);
}

#[test]
fn orientations_of_a_piece_come_in_the_order_of_their_cells() {
    // upright (0,0),(0,1) stands before flat (0,0),(1,0)
    let mut game = Game::from_shapes("xx\nxx", &vec![("I", "xx")]);
    let m = game.build_matrix();
    assert_eq!(m.row(0), vec![0, 2, 4]);
    assert_eq!(m.row(1), vec![1, 3, 4]);
    assert_eq!(m.row(2), vec![0, 1, 4]);
    assert_eq!(m.row(3), vec![2, 3, 4]);
}

#[test]
fn rows_list_their_cells_in_ascending_order() {
    let mut game = Game::from_shapes("xx\nxx", &vec![("O", "xx\nxx")]);
    let m = game.build_matrix();
    assert_eq!(m.row(0), vec![0, 1, 2, 3, 4]);
}

#[test]
fn equal_shapes_are_still_two_pieces() {
    let mut game = Game::from_shapes("xx", &vec![("A", "x"), ("A", "x")]);
    let (m, solutions) = game.solve();
    assert_eq!(solutions, vec![vec![0, 3], vec![2, 1]]);
    assert_eq!(game.decode(&m, &solutions[0]), vec![0, 1]);
    assert_eq!(game.decode(&m, &solutions[1]), vec![1, 0]);
}

#[test]
fn solution_names_the_pieces_and_their_cells() {
    let mut game = Game::from_shapes("xx\nxx", &vec![("T1", "xx\nx"), ("T2", "x")]);
    let (m, solutions) = game.solve();
    let first = solutions[0].clone();
    assert_eq!(first, vec![0, 7]);
    let tiles = game.solution(m, first);
    assert_eq!(tiles.len(), 2);
    assert_eq!(tiles[0].name, "T1");
    assert_eq!(tiles[0].points, vec![Point::new(0, 0), Point::new(1, 0), Point::new(0, 1)]);
    assert_eq!(tiles[1].name, "T2");
    assert_eq!(tiles[1].points, vec![Point::new(1, 1)]);
}

#[test]
fn empty_board_has_no_solution() {
    let mut game = Game::from_shapes("", &vec![]);
    assert_eq!(game.len(), 0);
    let (m, solutions) = game.solve();
    assert!(solutions.is_empty());
    assert_eq!(m.state(), Phase::Exhausted);

    let mut game = Game::from_shapes(" ", &vec![("A", "x")]);
    let (_m, solutions) = game.solve();
    assert!(solutions.is_empty());
}

const BOARD: &str = "xxxxxx\n xxxxx\nxxxxxxx\nxxxxxxx\nxxxxxxx\nxxxxx x\nxxx";

fn eight_pieces() -> Vec<(&'static str, &'static str)> {
    vec![
        ("0", "xxx\n  xx"),
        ("1", "xxxx\nx"),
        ("2", "xxx\nx x"),
        ("3", "xxx\nxx"),
        ("4", "xxx\nxxx"),
        ("5", "xxxx\n x"),
        ("6", "x\nxxx\n  x"),
        ("7", "  x\n  x\nxxx"),
    ]
}

#[test]
fn irregular_board_with_eight_pieces() {
    let mut game = Game::from_shapes(BOARD, &eight_pieces());
    assert_eq!(game.len(), 41);
    let mut m = game.build_matrix();
    let sizes: Vec<usize> = game.tiles.iter().map(|t| t.len()).collect();

    let mut solutions: Vec<Vec<usize>> = Vec::new();
    for i in 1..=68 {
        let s = m.next_solution().unwrap();
        solutions.push(s);
        assert_eq!(solutions.len(), i);
        assert_eq!(
            game.decode(&m, &solutions[0]),
            [
                0, 0, 1, 1, 1, 1, 0, 0, 0, 6, 1, 3, 3, 3, 5, 6, 6, 6, 3, 3, 5, 5, 5, 5, 6, 7, 4,
                4, 4, 2, 2, 2, 7, 4, 4, 4, 2, 2, 7, 7, 7
            ]
        );
    }
    assert_eq!(m.next_solution(), None);
    assert_eq!(m.next_solution(), None);
    assert_eq!(solutions.len(), 68);

    for s in &solutions {
        let board = game.decode(&m, s);
        assert_eq!(board.len(), 41);
        for k in 0..8 {
            assert_eq!(board.iter().filter(|&&p| p == k).count(), sizes[k]);
        }
        assert!(board.iter().all(|&p| p <= 7));
    }
}

#[test]
fn no_two_rows_hold_the_same_columns() {
    let board = "xxxxx\nxxxxx\nxxxxx\nxxxxx";
    let shapes = vec![("T1", "xxxx\n x  "), ("P1", "xxx\nxx "), ("I", "xx"), ("O", "xx\nxx")];
    let mut game = Game::from_shapes(board, &shapes);
    let m = game.build_matrix();
    let mut rows: Vec<Vec<usize>> = Vec::new();
    let mut r = 0;
    let mut nodes = 25;
    while nodes < m.node_count() {
        let row = m.row(r);
        // cells ascending, the piece last and greatest
        assert!(row.windows(2).all(|w| w[0] < w[1]));
        assert!(row[row.len() - 1] >= 20);
        assert!(row[..row.len() - 1].iter().all(|&c| c < 20));
        nodes += row.len();
        rows.push(row);
        r += 1;
    }
    // piece by piece
    assert!(rows.windows(2).all(|w| w[0][w[0].len() - 1] <= w[1][w[1].len() - 1]));
    let count = rows.len();
    rows.sort();
    rows.dedup();
    assert_eq!(rows.len(), count);
}

#[test]
fn from_str_starts_at_the_origin() {
    let tile = Tile::from_str("T", "\n\n   x\n  xx");
    assert_eq!(tile.name, "T");
    assert_eq!(tile.points, vec![Point::new(1, 0), Point::new(0, 1), Point::new(1, 1)]);
    assert_eq!(tile.offset(), Point::new(0, 0));
}

#[test]
fn moving_by_the_negated_offset_anchors_a_tile() {
    let mut tile = Tile::new("T");
    tile.points = vec![Point::new(5, -3), Point::new(4, 7), Point::new(9, 0)];
    let o = tile.offset();
    assert_eq!(o, Point::new(4, -3));
    tile.translate(&-o);
    assert_eq!(tile.offset(), Point::new(0, 0));
    assert_eq!(tile.points, vec![Point::new(1, 0), Point::new(0, 10), Point::new(5, 3)]);
    assert_eq!(tile.name, "T");
}
