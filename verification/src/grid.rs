use vstd::prelude::*;

verus! {

/// Where a simulated cell starts and where it heads, as grid columns and rows.
#[derive(Clone, Copy, PartialEq, Eq, Structural)]
pub struct CellPlacement {
    pub src_col: usize,
    pub src_row: usize,
    pub dst_col: usize,
    pub dst_row: usize,
}

/// The placement of cell `cell` when slot `slot` chose it on a `width`-wide grid.
pub open spec fn placement(cell: int, slot: int, width: int) -> CellPlacement {
    CellPlacement {
        src_col: (cell % width) as usize,
        src_row: (cell / width) as usize,
        dst_col: (slot % width) as usize,
        dst_row: (slot / width) as usize,
    }
}

/// The last slot before `upto` that chose `cell`.
pub open spec fn last_pick(assignments: Seq<usize>, cell: int, upto: int) -> Option<int>
    decreases upto,
{
    if upto <= 0 {
        None
    } else if assignments[upto - 1] == cell {
        Some(upto - 1)
    } else {
        last_pick(assignments, cell, upto - 1)
    }
}

/// What a cell is set to: the placement from the last slot that chose it, or
/// nothing when no slot chose it.
pub open spec fn target_of(assignments: Seq<usize>, cell: int, width: int) -> Option<CellPlacement> {
    match last_pick(assignments, cell, assignments.len() as int) {
        Some(k) => Some(placement(cell, k, width)),
        None => None,
    }
}

/// For each of `n_cells` cells, where slot assignments send it: `assignments[k]`
/// is the cell that target slot `k` takes, cells and slots numbered row by
/// row on a `width`-wide grid; a cell chosen by several slots goes to the
/// last of them.
pub fn assignment_targets(assignments: &[usize], width: usize, n_cells: usize) -> (targets: Vec<
    Option<CellPlacement>,
>)
    requires
        width > 0 || assignments@.len() == 0,
        forall|k: int| 0 <= k < assignments@.len() ==> #[trigger] assignments@[k] < n_cells,
    ensures
        targets@.len() == n_cells,
        forall|c: int| 0 <= c < n_cells ==> #[trigger] targets@[c] == target_of(assignments@, c, width as int),
{
    let mut targets: Vec<Option<CellPlacement>> = vec![None; n_cells];
    let mut k: usize = 0;
    while k < assignments.len()
        invariant
            k <= assignments@.len(),
            width > 0 || assignments@.len() == 0,
            forall|j: int| 0 <= j < assignments@.len() ==> #[trigger] assignments@[j] < n_cells,
            targets@.len() == n_cells,
            forall|j: int|
                0 <= j < n_cells ==> #[trigger] targets@[j] == match last_pick(assignments@, j, k as int) {
                    Some(s) => Some(placement(j, s, width as int)),
                    None => None,
                },
        decreases assignments@.len() - k,
    {
        let cell = assignments[k];
        let p = CellPlacement {
            src_col: cell % width,
            src_row: cell / width,
            dst_col: k % width,
            dst_row: k / width,
        };
        targets.set(cell, Some(p));
        k += 1;
    }
    targets
}

/// When no two slots choose the same cell, each chosen cell is sent to the
/// slot that chose it.
pub proof fn lemma_targets_follow_choice(assignments: Seq<usize>, width: int, k: int)
    requires
        0 <= k < assignments.len(),
        forall|i: int, j: int|
            0 <= i < assignments.len() && 0 <= j < assignments.len() && i != j ==> #[trigger] assignments[i]
                != #[trigger] assignments[j],
    ensures
        target_of(assignments, assignments[k] as int, width) == Some(placement(assignments[k] as int, k, width)),
{
    lemma_last_pick_unique(assignments, assignments[k] as int, k, assignments.len() as int);
}

proof fn lemma_last_pick_unique(assignments: Seq<usize>, cell: int, k: int, upto: int)
    requires
        0 <= k < upto <= assignments.len(),
        assignments[k] == cell,
        forall|i: int, j: int|
            0 <= i < assignments.len() && 0 <= j < assignments.len() && i != j ==> #[trigger] assignments[i]
                != #[trigger] assignments[j],
    ensures
        last_pick(assignments, cell, upto) == Some(k),
    decreases upto,
{
    if upto - 1 != k {
        assert(assignments[upto - 1] != assignments[k]);
        lemma_last_pick_unique(assignments, cell, k, upto - 1);
    }
}

/// Slots that keep their own cell send every cell to where it already is.
pub proof fn lemma_identity_targets_stay(assignments: Seq<usize>, width: int, c: int)
    requires
        0 <= c < assignments.len(),
        forall|k: int| 0 <= k < assignments.len() ==> #[trigger] assignments[k] == k,
    ensures
        target_of(assignments, c, width) matches Some(p) && p.src_col == p.dst_col && p.src_row == p.dst_row,
{
    assert forall|i: int, j: int|
        0 <= i < assignments.len() && 0 <= j < assignments.len() && i != j implies #[trigger] assignments[i]
            != #[trigger] assignments[j] by {}
    lemma_targets_follow_choice(assignments, width, c);
}

/// The slots identity assignments give a grid of `n` cells.
pub fn identity_assignments(n: usize) -> (assignments: Vec<usize>)
    ensures
        assignments@.len() == n,
        forall|k: int| 0 <= k < n ==> #[trigger] assignments@[k] == k,
{
    let mut assignments: Vec<usize> = Vec::new();
    let mut k: usize = 0;
    while k < n
        invariant
            k <= n,
            assignments@.len() == k,
            forall|j: int| 0 <= j < k ==> #[trigger] assignments@[j] == j,
        decreases n - k,
    {
        assignments.push(k);
        k += 1;
    }
    assignments
}

/// The members of bucket `b` among the first `upto` items, in order.
pub open spec fn bucket_members(bucket_of: Seq<usize>, b: int, upto: int) -> Seq<usize>
    decreases upto,
{
    if upto <= 0 {
        Seq::empty()
    } else if bucket_of[upto - 1] == b {
        bucket_members(bucket_of, b, upto - 1).push((upto - 1) as usize)
    } else {
        bucket_members(bucket_of, b, upto - 1)
    }
}

/// Sorts items into `n_buckets` buckets: bucket `b` lists, in increasing
/// order, the items `i` with `bucket_of[i] == b`.
pub fn fill_buckets(bucket_of: &[usize], n_buckets: usize) -> (buckets: Vec<Vec<usize>>)
    requires
        forall|i: int| 0 <= i < bucket_of@.len() ==> #[trigger] bucket_of@[i] < n_buckets,
    ensures
        buckets@.len() == n_buckets,
        forall|b: int| 0 <= b < n_buckets ==> (#[trigger] buckets@[b])@ == bucket_members(bucket_of@, b, bucket_of@.len() as int),
{
    let mut buckets: Vec<Vec<usize>> = vec![Vec::new(); n_buckets];
    let mut i: usize = 0;
    while i < bucket_of.len()
        invariant
            i <= bucket_of@.len(),
            forall|j: int| 0 <= j < bucket_of@.len() ==> #[trigger] bucket_of@[j] < n_buckets,
            buckets@.len() == n_buckets,
            forall|j: int| 0 <= j < n_buckets ==> (#[trigger] buckets@[j])@ == bucket_members(bucket_of@, j, i as int),
        decreases bucket_of@.len() - i,
    {
        let target = bucket_of[i];
        buckets[target].push(i);
        i += 1;
    }
    buckets
}

/// The neighbour bucket that offset `d` (0 to 8, `dx = d % 3`, `dy = d / 3`)
/// picks around column `col`, row `row` of a `grid`-wide square grid: the
/// bucket at column `col + dx - 1`, row `row + dy - 1`, kept only when
/// `col + dx` and `row + dy` lie in `1..grid`, so that the grid's last column
/// and last row are never picked.
pub open spec fn neighbour_bucket(col: int, row: int, grid: int, d: int) -> Option<int> {
    let dx = d % 3;
    let dy = d / 3;
    if col + dx == 0 || row + dy == 0 || col + dx >= grid || row + dy >= grid {
        None
    } else {
        Some((row + dy - 1) * grid + (col + dx - 1))
    }
}

/// The buckets of the first `d` offsets, in order.
pub open spec fn neighbour_buckets_upto(col: int, row: int, grid: int, d: int) -> Seq<usize>
    decreases d,
{
    if d <= 0 {
        Seq::empty()
    } else {
        match neighbour_bucket(col, row, grid, d - 1) {
            Some(b) => neighbour_buckets_upto(col, row, grid, d - 1).push(b as usize),
            None => neighbour_buckets_upto(col, row, grid, d - 1),
        }
    }
}

/// The buckets of the 3 by 3 block around column `col`, row `row` of a
/// `grid`-wide square grid that `neighbour_bucket` keeps, row by row.
pub fn neighbour_buckets(col: usize, row: usize, grid: usize) -> (buckets: Vec<usize>)
    requires
        col + 2 <= usize::MAX,
        row + 2 <= usize::MAX,
        grid * grid <= usize::MAX,
    ensures
        buckets@ == neighbour_buckets_upto(col as int, row as int, grid as int, 9),
        forall|i: int| 0 <= i < buckets@.len() ==> #[trigger] buckets@[i] < grid * grid,
{
    let mut buckets: Vec<usize> = Vec::new();
    let mut dy: usize = 0;
    while dy <= 2
        invariant
            dy <= 3,
            col + 2 <= usize::MAX,
            row + 2 <= usize::MAX,
            grid * grid <= usize::MAX,
            buckets@ == neighbour_buckets_upto(col as int, row as int, grid as int, 3 * dy),
            forall|i: int| 0 <= i < buckets@.len() ==> #[trigger] buckets@[i] < grid * grid,
        decreases 3 - dy,
    {
        let mut dx: usize = 0;
        while dx <= 2
            invariant
                dx <= 3,
                dy <= 2,
                col + 2 <= usize::MAX,
                row + 2 <= usize::MAX,
                grid * grid <= usize::MAX,
                buckets@ == neighbour_buckets_upto(col as int, row as int, grid as int, 3 * dy + dx),
                forall|i: int| 0 <= i < buckets@.len() ==> #[trigger] buckets@[i] < grid * grid,
            decreases 3 - dx,
        {
            let ghost d = 3 * dy + dx;
            assert(d % 3 == dx && d / 3 == dy);
            if !(col + dx == 0 || row + dy == 0 || col + dx >= grid || row + dy >= grid) {
                let ncol = col + dx - 1;
                let nrow = row + dy - 1;
                proof {
                    assert(nrow * grid + ncol < grid * grid) by (nonlinear_arith)
                        requires
                            nrow < grid,
                            ncol < grid,
                    ;
                    assert(0 <= nrow * grid) by (nonlinear_arith)
                        requires 0 <= nrow, 0 <= grid;
                }
                let nindex = nrow * grid + ncol;
                buckets.push(nindex);
            }
            dx += 1;
        }
        dy += 1;
    }
    buckets
}

} // verus!
