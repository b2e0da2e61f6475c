use polyomino::dlx::Phase;
use polyomino::game::Game;
use polyomino::parser::{parse, ParserError};

#[test]
fn parser_basics() {
    let contents = [
        "---\n",
        "Board: |\n",
        "    xxxx\n",
        "    xxxx\n",
        "X: |\n",
        "    x\n",
        "   xxx\n",
        "    x\n",
        "Y: |\n",
        "  xxx\n",
    ]
    .concat();
    let map = parse(&contents).unwrap();

    assert_eq!(map[0], ("Board", "    xxxx\n    xxxx"));
    assert_eq!(map[1], ("X", "    x\n   xxx\n    x"));
    assert_eq!(map[2], ("Y", "  xxx"));
}

#[test]
fn unknown_value_is_reported_with_its_line() {
    let r = parse("A: xx\n");
    assert_eq!(r, Err(ParserError::new("Unknown value", " xx", 5)));
}

#[test]
fn document_that_ends_in_a_value_is_unfinished() {
    let r = parse("A: |\n  x");
    assert_eq!(
        r,
        Err(ParserError::new("Unfinished data. Perhaps missing new line.", "  x", 5))
    );
}

#[test]
fn document_that_ends_in_a_key_is_unfinished() {
    let r = parse("A: |\n x\nBoard");
    assert_eq!(
        r,
        Err(ParserError::new("Unfinished data. Perhaps missing new line.", "Board", 8))
    );
    assert_eq!(
        parse("abc"),
        Err(ParserError::new("Unfinished data. Perhaps missing new line.", "abc", 0))
    );
}

#[test]
fn places_are_counted_in_bytes() {
    // the key holds a character of two bytes
    let r = parse("\u{e9}: y\n");
    assert_eq!(r, Err(ParserError::new("Unknown value", " y", 5)));
}

#[test]
fn empty_document_has_no_entries_but_is_unfinished() {
    // the reader begins in a key
    assert_eq!(
        parse(""),
        Err(ParserError::new("Unfinished data. Perhaps missing new line.", "", 0))
    );
}

#[test]
fn a_key_without_value_is_skipped() {
    let map = parse("A:\nB: |\n x\n").unwrap();
    assert_eq!(map, vec![("B", " x")]);
}

#[test]
fn empty_lines_stay_in_a_value() {
    let map = parse("A: |\n  x\n\n  x\nB: |\n  y\n").unwrap();
    assert_eq!(map, vec![("A", "  x\n\n  x"), ("B", "  y")]);
}

#[test]
fn keys_are_trimmed_and_dashes_are_dropped() {
    let map = parse("---\n  Key \u{a0}: |\n      x\n").unwrap();
    assert_eq!(map, vec![("Key", "      x")]);
}

#[test]
fn indented_keys_end_values_at_their_depth() {
    // the value of A is indented by 4, the key of A by 2
    let map = parse("Top: |\n  a\n  A: |\n    x\n   y\n  z\n").unwrap();
    assert_eq!(map, vec![("Top", "  a\n  A: |\n    x\n   y\n  z")]);
}

const PUZZLE: &str = "
---
Board: |
    xxxxxx
     xxxxx
    xxxxxxx
    xxxxxxx
    xxxxxxx
    xxxxx x
    xxx
0: |
    xxx
      xx
1: |
    xxxx
    x
2: |
    xxx
    x x
3: |
    xxx
    xx
4: |
    xxx
    xxx
5: |
    xxxx
     x
6: |
    x
    xxx
      x
7: |
      x
      x
    xxx
";

#[test]
fn lib_basics() {
    let mut game = Game::from_yaml(PUZZLE);
    let mut m = game.build_matrix();
    let mut solutions: Vec<Vec<usize>> = Vec::new();

    for i in 1..68 {
        if let Some(s) = m.next_solution() {
            solutions.push(s);
        }
        assert_eq!(solutions.len(), i);
        assert_eq!(
            game.decode(&m, &solutions[0]),
            [
                0, 0, 1, 1, 1, 1, 0, 0, 0, 6, 1, 3, 3, 3, 5, 6, 6, 6, 3, 3, 5, 5, 5, 5, 6, 7,
                4, 4, 4, 2, 2, 2, 7, 4, 4, 4, 2, 2, 7, 7, 7
            ]
        );
    }
    for _ in 0..2 {
        if let Some(s) = m.next_solution() {
            solutions.push(s);
        }
        assert_eq!(solutions.len(), 68);
    }
    assert_eq!(m.state(), Phase::Exhausted);

    solutions.extend(m.all_solutions());
    assert_eq!(solutions.len(), 68);
}

#[test]
fn from_yaml_takes_the_board_and_the_pieces_in_order() {
    let game = Game::from_yaml("B: |\n  xx\nBoard: |\n  xxx\n  x\nA: |\n  x\n");
    assert_eq!(game.len(), 4);
    assert_eq!(game.board.name, "Board");
    let names: Vec<&str> = game.tiles.iter().map(|t| t.name.as_str()).collect();
    assert_eq!(names, vec!["B", "A"]);
    assert_eq!(game.tiles[0].len(), 2);
}

#[test]
fn from_yaml_without_board_has_an_empty_board() {
    let mut game = Game::from_yaml("A: |\n  x\n");
    assert_eq!(game.len(), 0);
    let (_m, solutions) = game.solve();
    assert!(solutions.is_empty());
}
