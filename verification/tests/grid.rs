use obamify::grid::{assignment_targets, fill_buckets, identity_assignments, neighbour_buckets, CellPlacement};

fn pl(src_col: usize, src_row: usize, dst_col: usize, dst_row: usize) -> Option<CellPlacement> {
    Some(CellPlacement { src_col, src_row, dst_col, dst_row })
}

#[test]
fn identity_targets_stay_in_place() {
    let a = identity_assignments(4);
    assert_eq!(a, vec![0, 1, 2, 3]);
    let t = assignment_targets(&a, 2, 4);
    assert!(t == vec![pl(0, 0, 0, 0), pl(1, 0, 1, 0), pl(0, 1, 0, 1), pl(1, 1, 1, 1)]);
}

#[test]
fn permutation_targets_follow_the_slots() {
    // slot 0 takes cell 3, slot 1 cell 0, slot 2 cell 1, slot 3 cell 2
    let t = assignment_targets(&[3, 0, 1, 2], 2, 4);
    assert!(t == vec![pl(0, 0, 1, 0), pl(1, 0, 0, 1), pl(0, 1, 1, 1), pl(1, 1, 0, 0)]);
}

#[test]
fn repeated_cell_goes_to_last_slot_and_unchosen_cells_stay() {
    let t = assignment_targets(&[1, 1, 1], 3, 3);
    assert!(t == vec![None, pl(1, 0, 2, 0), None]);
    let empty = assignment_targets(&[], 0, 2);
    assert!(empty == vec![None, None]);
}

#[test]
fn buckets_list_members_in_order() {
    let b = fill_buckets(&[2, 0, 2, 1, 0], 4);
    assert_eq!(b, vec![vec![1, 4], vec![3], vec![0, 2], vec![]]);
}

#[test]
fn neighbour_buckets_in_the_middle_and_at_corners() {
    // cell (col 1, row 1) on a 4-wide grid: the whole 3x3 block around it
    assert_eq!(neighbour_buckets(1, 1, 4), vec![0, 1, 2, 4, 5, 6, 8, 9, 10]);
    // cell (col 2, row 2): the grid's last column and row are left out
    assert_eq!(neighbour_buckets(2, 2, 4), vec![5, 6, 9, 10]);
    // top-left corner: only the cells to the right and below
    assert_eq!(neighbour_buckets(0, 0, 4), vec![0, 1, 4, 5]);
    // bottom-right corner
    assert_eq!(neighbour_buckets(3, 3, 4), vec![10]);
    // off the grid
    assert_eq!(neighbour_buckets(9, 9, 4), Vec::<usize>::new());
}
