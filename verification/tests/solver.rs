use polyomino::dlx::{Matrix, Phase};

fn matrix(n_cols: usize, rows: &[&[usize]]) -> Matrix {
    let mut m = Matrix::new(n_cols);
    for r in rows {
        m.add_row(&r.to_vec());
    }
    m
}

fn links(m: &Matrix) -> Vec<(usize, usize, usize, usize)> {
    (0..m.node_count()).map(|x| m.links_at(x)).collect()
}

fn sizes(m: &Matrix) -> Vec<usize> {
    (0..m.columns()).map(|c| m.size_of(c)).collect()
}

const KNUTH: [&[usize]; 6] =
    [&[2, 4, 5], &[0, 3, 6], &[1, 2, 5], &[0, 3], &[1, 6], &[3, 4, 6]];

#[test]
fn finds_the_one_cover_of_a_small_matrix() {
    let mut m = matrix(7, &KNUTH);
    assert_eq!(m.state(), Phase::Fresh);
    assert_eq!(m.all_solutions(), vec![vec![3, 0, 4]]);
    assert_eq!(m.state(), Phase::Exhausted);
}

#[test]
fn rows_are_found_again_by_their_position() {
    let m = matrix(7, &KNUTH);
    assert_eq!(m.row(0), vec![2, 4, 5]);
    assert_eq!(m.row(3), vec![0, 3]);
    assert_eq!(m.row(4), vec![1, 6]);
    assert_eq!(m.node_count(), 8 + 16);
}

#[test]
fn two_by_two_rows_have_four_covers_in_order() {
    let rows: [&[usize]; 8] = [
        &[0, 1, 2, 4],
        &[0, 2, 3, 4],
        &[0, 1, 3, 4],
        &[1, 2, 3, 4],
        &[0, 5],
        &[1, 5],
        &[2, 5],
        &[3, 5],
    ];
    let mut m = matrix(6, &rows);
    assert_eq!(m.next_solution(), Some(vec![0, 7]));
    assert_eq!(m.state(), Phase::Running);
    assert_eq!(m.next_solution(), Some(vec![1, 5]));
    assert_eq!(m.next_solution(), Some(vec![2, 6]));
    assert_eq!(m.next_solution(), Some(vec![4, 3]));
    assert_eq!(m.next_solution(), None);
    assert_eq!(m.state(), Phase::Exhausted);
}

#[test]
fn exhausted_stays_exhausted() {
    let mut m = matrix(7, &KNUTH);
    assert!(m.next_solution().is_some());
    for _ in 0..5 {
        assert_eq!(m.next_solution(), None);
        assert_eq!(m.state(), Phase::Exhausted);
    }
    assert!(m.all_solutions().is_empty());
}

#[test]
fn all_at_once_is_one_after_the_other() {
    let mut a = matrix(7, &KNUTH);
    let mut b = matrix(7, &KNUTH);
    let all = a.all_solutions();
    let mut one_by_one = Vec::new();
    while let Some(s) = b.next_solution() {
        one_by_one.push(s);
    }
    assert_eq!(all, one_by_one);
}

#[test]
fn every_solution_covers_each_column_once() {
    let mut m = matrix(7, &KNUTH);
    for s in m.all_solutions() {
        let mut seen = vec![0usize; 7];
        for r in s {
            for c in m.row(r) {
                seen[c] += 1;
            }
        }
        assert_eq!(seen, vec![1; 7]);
    }
}

#[test]
fn a_drained_search_leaves_the_links_as_built() {
    let mut m = matrix(7, &KNUTH);
    let before = (links(&m), sizes(&m));
    assert_eq!(m.all_solutions().len(), 1);
    assert_eq!((links(&m), sizes(&m)), before);

    let mut m = matrix(3, &[&[0, 1], &[1]]);
    let before = (links(&m), sizes(&m));
    assert_eq!(m.next_solution(), None);
    assert_eq!((links(&m), sizes(&m)), before);
}

#[test]
fn no_cover_is_found_twice() {
    let rows: [&[usize]; 6] = [&[0], &[1], &[0, 1], &[1, 2], &[2], &[0]];
    let mut m = matrix(3, &rows);
    let mut all = m.all_solutions();
    let count = all.len();
    for s in all.iter_mut() {
        s.sort();
    }
    all.sort();
    all.dedup();
    assert_eq!(all.len(), count);
    assert_eq!(count, 5);
}

#[test]
fn cover_then_uncover_restores_every_link() {
    let mut m = matrix(7, &KNUTH);
    let before = (links(&m), sizes(&m));
    for c in 0..7 {
        m.cover(c);
        assert_ne!(links(&m), before.0);
        m.uncover(c);
        assert_eq!((links(&m), sizes(&m)), before);
    }
}

#[test]
fn cover_takes_out_the_rows_of_the_column() {
    let mut m = matrix(7, &KNUTH);
    m.cover(0);
    // column 0 has ones in rows 1 and 3; their other columns lose them
    assert_eq!(sizes(&m), vec![2, 2, 2, 1, 2, 2, 2]);
    // the root now leads to column 1
    assert_eq!(m.links_at(0).1, 2);
}

#[test]
fn a_column_without_ones_means_no_solution() {
    let mut m = matrix(3, &[&[0, 1], &[1]]);
    assert_eq!(m.next_solution(), None);
    assert_eq!(m.state(), Phase::Exhausted);
}

#[test]
fn a_matrix_without_columns_has_no_solution() {
    let mut m = Matrix::new(0);
    assert_eq!(m.next_solution(), None);
    assert!(m.all_solutions().is_empty());
}

#[test]
fn an_empty_row_is_not_stored() {
    let mut m = Matrix::new(2);
    m.add_row(&vec![]);
    m.add_row(&vec![0, 1]);
    assert_eq!(m.node_count(), 5);
    assert_eq!(m.all_solutions(), vec![vec![0]]);
    assert_eq!(m.row(0), vec![0, 1]);
}

#[test]
fn equal_rows_give_equal_sequences() {
    let rows: [&[usize]; 5] = [&[0], &[1], &[0, 1], &[1, 2], &[2]];
    let mut a = matrix(3, &rows);
    let mut b = matrix(3, &rows);
    loop {
        let x = a.next_solution();
        let y = b.next_solution();
        assert_eq!(x, y);
        if x.is_none() {
            break;
        }
    }
}

#[test]
fn the_column_with_fewest_ones_is_taken_first() {
    // column 0 has two ones, column 1 has three: the search branches on
    // column 0, and takes its rows from top to bottom
    let rows: [&[usize]; 4] = [&[1], &[0], &[0, 1], &[1]];
    let mut m = matrix(2, &rows);
    assert_eq!(m.all_solutions(), vec![vec![1, 0], vec![1, 3], vec![2]]);
}

#[test]
fn ties_go_to_the_leftmost_column() {
    // both columns have two ones: the search branches on column 0
    let rows: [&[usize]; 4] = [&[1], &[0], &[1], &[0]];
    let mut m = matrix(2, &rows);
    assert_eq!(
        m.all_solutions(),
        vec![vec![1, 0], vec![1, 2], vec![3, 0], vec![3, 2]]
    );
}
