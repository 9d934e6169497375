use aoc::array::{Array2D, MooreNeighborhoodIterator};
use aoc::select;

fn values<T: Copy>(refs: Vec<&T>) -> Vec<T> {
    refs.into_iter().copied().collect()
}

#[test]
fn fill_then_set_iterates_row_major() {
    let mut g = Array2D::fill(0, 2, 2);
    g.set(0, 0, 5);
    g.set(1, 1, 9);
    assert_eq!(values(g.iter()), vec![5, 0, 0, 9]);
}

#[test]
fn from_slice_rows_and_columns() {
    let g = Array2D::from_slice(&[1, 2, 3, 4, 5, 6], 2, 3);
    assert_eq!(values(g.iter_row(1)), vec![4, 5, 6]);
    assert_eq!(values(g.iter_col(2)), vec![3, 6]);
    assert_eq!(values(g.iter_row(0)), vec![1, 2, 3]);
    assert_eq!(values(g.iter_col(0)), vec![1, 4]);
}

#[test]
fn adjacent_of_corner_has_three_neighbors() {
    let g = Array2D::from_slice(&[1, 2, 3, 4, 5, 6, 7, 8, 9], 3, 3);
    assert_eq!(values(g.iter_adjacent(0, 0)), vec![2, 4, 5]);
}

#[test]
fn adjacent_of_center_has_eight_neighbors_in_order() {
    let g = Array2D::from_slice(&[1, 2, 3, 4, 5, 6, 7, 8, 9], 3, 3);
    assert_eq!(values(g.iter_adjacent(1, 1)), vec![1, 2, 3, 4, 6, 7, 8, 9]);
}

#[test]
fn adjacent_of_edge_and_far_corner() {
    let g = Array2D::from_slice(&[1, 2, 3, 4, 5, 6, 7, 8, 9], 3, 3);
    assert_eq!(values(g.iter_adjacent(0, 1)), vec![1, 3, 4, 5, 6]);
    assert_eq!(values(g.iter_adjacent(2, 2)), vec![5, 6, 8]);
}

#[test]
fn adjacent_at_usize_max_does_not_wrap() {
    let g = Array2D::fill(1u8, 2, 2);
    assert!(g.iter_adjacent(usize::MAX, usize::MAX).is_empty());
}

#[test]
fn new_uses_default_value() {
    let g: Array2D<u32> = Array2D::new(3, 2);
    assert_eq!(g.rows(), 3);
    assert_eq!(g.cols(), 2);
    assert_eq!(values(g.iter()), vec![0; 6]);
}

#[test]
fn get_in_and_out_of_bounds() {
    let g = Array2D::from_slice(&[1, 2, 3, 4, 5, 6], 2, 3);
    assert_eq!(g.get(1, 2), Some(&6));
    assert_eq!(g.get(0, 1), Some(&2));
    assert_eq!(g.get(2, 0), None);
    assert_eq!(g.get(0, 3), None);
    assert_eq!(g.get_tuple((1, 0)), Some(&4));
    assert_eq!(g.get_tuple((5, 5)), None);
    assert_eq!(g.get_index(1, 2), Some(5));
    assert_eq!(g.get_index(0, 0), Some(0));
    assert_eq!(g.get_index(2, 2), None);
    assert_eq!(g.get_index(1, 3), None);
}

#[test]
fn get_mut_writes_one_cell() {
    let mut g = Array2D::fill(0, 2, 2);
    *g.get_mut(0, 1).unwrap() = 7;
    *g.get_mut_tuple((1, 0)).unwrap() = 3;
    assert!(g.get_mut(2, 0).is_none());
    assert!(g.get_mut_tuple((0, 2)).is_none());
    assert_eq!(values(g.iter()), vec![0, 7, 3, 0]);
}

#[test]
fn set_leaves_other_cells() {
    let mut g = Array2D::from_slice(&[1, 2, 3, 4, 5, 6], 3, 2);
    g.set(2, 1, 60);
    assert_eq!(g.get(2, 1), Some(&60));
    assert_eq!(values(g.iter()), vec![1, 2, 3, 4, 5, 60]);
}

#[test]
fn index_and_index_mut() {
    let mut g = Array2D::from_slice(&[1, 2, 3, 4], 2, 2);
    assert_eq!(*g.index((1, 0)), 3);
    *g.index_mut((0, 1)) += 10;
    assert_eq!(values(g.iter()), vec![1, 12, 3, 4]);
}

#[test]
fn iter_mut_changes_every_cell() {
    let mut g = Array2D::from_slice(&[1, 2, 3, 4], 2, 2);
    for v in g.iter_mut() {
        *v *= 2;
    }
    assert_eq!(values(g.iter()), vec![2, 4, 6, 8]);
}

#[test]
fn iter_indices_row_major() {
    let g = Array2D::fill('x', 2, 3);
    assert_eq!(
        g.iter_indices(),
        vec![(0, 0), (0, 1), (0, 2), (1, 0), (1, 1), (1, 2)]
    );
}

#[test]
fn empty_grid_has_nothing() {
    let g: Array2D<u8> = Array2D::new(0, 4);
    assert!(g.iter().is_empty());
    assert!(g.iter_indices().is_empty());
    assert!(g.iter_rows().is_empty());
    assert_eq!(g.iter_cols().len(), 4);
    assert!(g.iter_cols().iter().all(|c| c.is_empty()));
    assert_eq!(g.get(0, 0), None);
    let h: Array2D<u8> = Array2D::new(3, 0);
    assert!(h.iter_indices().is_empty());
    assert_eq!(h.iter_rows().len(), 3);
}

#[test]
fn rows_and_cols_of_rows_and_cols() {
    let g = Array2D::from_slice(&[1, 2, 3, 4, 5, 6], 2, 3);
    let rows: Vec<Vec<i32>> = g.iter_rows().into_iter().map(values).collect();
    assert_eq!(rows, vec![vec![1, 2, 3], vec![4, 5, 6]]);
    let cols: Vec<Vec<i32>> = g.iter_cols().into_iter().map(values).collect();
    assert_eq!(cols, vec![vec![1, 4], vec![2, 5], vec![3, 6]]);
}

#[test]
fn enumerate_pairs_positions_with_cells() {
    let g = Array2D::from_slice(&[1, 2, 3, 4, 5, 6], 2, 3);
    let e: Vec<((usize, usize), i32)> = g.enumerate().into_iter().map(|(i, v)| (i, *v)).collect();
    let zipped: Vec<((usize, usize), i32)> = g
        .iter_indices()
        .into_iter()
        .zip(values(g.iter()))
        .collect();
    assert_eq!(e, zipped);
    assert_eq!(e[4], ((1, 1), 5));
}

#[test]
fn enumerate_mut_writes_by_position() {
    let mut g = Array2D::fill(0usize, 2, 2);
    let (indices, cells) = g.enumerate_mut();
    for ((r, c), v) in indices.into_iter().zip(cells.iter_mut()) {
        *v = 10 * r + c;
    }
    assert_eq!(values(g.iter()), vec![0, 1, 10, 11]);
}

#[test]
fn fill_copies_are_independent() {
    let mut g = Array2D::fill(vec![1], 1, 2);
    g.get_mut(0, 0).unwrap().push(2);
    assert_eq!(g.get(0, 0), Some(&vec![1, 2]));
    assert_eq!(g.get(0, 1), Some(&vec![1]));
}

#[test]
fn moore_walk_with_and_without_center() {
    let mut it = MooreNeighborhoodIterator::new((0, 0), true);
    let mut seen = vec![];
    while let Some(p) = it.next() {
        seen.push(p);
    }
    assert_eq!(seen, vec![(0, 0), (0, 1), (1, 0), (1, 1)]);
    assert_eq!(it.next(), None);
    let mut it = MooreNeighborhoodIterator::new((5, 7), false);
    let mut count = 0;
    while it.next().is_some() {
        count += 1;
    }
    assert_eq!(count, 8);
}

#[test]
fn select_picks_by_condition() {
    assert_eq!(select(true, 1, 2), 1);
    assert_eq!(select(false, 1, 2), 2);
}
