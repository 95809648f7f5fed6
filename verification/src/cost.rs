use vstd::prelude::*;

verus! {

/// Squared euclidean distance between two grid positions.
pub open spec fn spatial_dist_sq(a: (u16, u16), b: (u16, u16)) -> int {
    (a.0 - b.0) * (a.0 - b.0) + (a.1 - b.1) * (a.1 - b.1)
}

/// Squared euclidean distance between two RGB colors.
pub open spec fn color_dist_sq(a: (u8, u8, u8), b: (u8, u8, u8)) -> int {
    (a.0 - b.0) * (a.0 - b.0) + (a.1 - b.1) * (a.1 - b.1) + (a.2 - b.2) * (a.2 - b.2)
}

/// The cost of placing a pixel of color `a` found at `apos` onto the slot at
/// `bpos` whose wanted color is `b`: the squared color distance weighted by
/// the slot's `color_weight`, plus the square of the spatial distance scaled
/// by `spatial_weight`, `(spatial_weight × distance)²`, which on the grid is
/// the squared distance times `spatial_weight²`.
pub open spec fn cost_spec(
    apos: (u16, u16),
    bpos: (u16, u16),
    a: (u8, u8, u8),
    b: (u8, u8, u8),
    color_weight: int,
    spatial_weight: int,
) -> int {
    color_dist_sq(a, b) * color_weight + spatial_dist_sq(apos, bpos) * spatial_weight * spatial_weight
}

pub open spec fn in_i64(x: int) -> bool {
    i64::MIN <= x <= i64::MAX
}

/// Every intermediate value of the cost computation fits in an `i64`.
pub open spec fn cost_fits(
    apos: (u16, u16),
    bpos: (u16, u16),
    a: (u8, u8, u8),
    b: (u8, u8, u8),
    color_weight: int,
    spatial_weight: int,
) -> bool {
    let c = color_dist_sq(a, b);
    let s = spatial_dist_sq(apos, bpos);
    &&& in_i64(c * color_weight)
    &&& in_i64(s * spatial_weight)
    &&& in_i64(s * spatial_weight * spatial_weight)
    &&& in_i64(cost_spec(apos, bpos, a, b, color_weight, spatial_weight))
}

proof fn lemma_sq_bound(x: int, m: int)
    by (nonlinear_arith)
    requires
        -m <= x <= m,
    ensures
        0 <= x * x <= m * m,
{
}

/// Cost of moving the pixel of color `a` from `apos` to the slot `bpos`
/// whose target color is `b`.
pub fn heuristic(
    apos: (u16, u16),
    bpos: (u16, u16),
    a: (u8, u8, u8),
    b: (u8, u8, u8),
    color_weight: i64,
    spatial_weight: i64,
) -> (h: i64)
    requires
        cost_fits(apos, bpos, a, b, color_weight as int, spatial_weight as int),
    ensures
        h == cost_spec(apos, bpos, a, b, color_weight as int, spatial_weight as int),
{
    let dx = apos.0 as i64 - bpos.0 as i64;
    let dy = apos.1 as i64 - bpos.1 as i64;
    proof {
        lemma_sq_bound(dx as int, 65535);
        lemma_sq_bound(dy as int, 65535);
    }
    let spatial = dx * dx + dy * dy;
    let dr = a.0 as i64 - b.0 as i64;
    let dg = a.1 as i64 - b.1 as i64;
    let db = a.2 as i64 - b.2 as i64;
    proof {
        lemma_sq_bound(dr as int, 255);
        lemma_sq_bound(dg as int, 255);
        lemma_sq_bound(db as int, 255);
    }
    let color = dr * dr + dg * dg + db * db;
    let scaled = spatial * spatial_weight;
    color * color_weight + scaled * spatial_weight
}

/// The cost does not depend on which side is called source and which target.
pub proof fn lemma_cost_symmetric(
    apos: (u16, u16),
    bpos: (u16, u16),
    a: (u8, u8, u8),
    b: (u8, u8, u8),
    color_weight: int,
    spatial_weight: int,
)
    ensures
        cost_spec(apos, bpos, a, b, color_weight, spatial_weight) == cost_spec(
            bpos,
            apos,
            b,
            a,
            color_weight,
            spatial_weight,
        ),
{
    assert(color_dist_sq(a, b) == color_dist_sq(b, a)) by (nonlinear_arith);
    assert(spatial_dist_sq(apos, bpos) == spatial_dist_sq(bpos, apos)) by (nonlinear_arith);
}

/// With a non-negative color weight no placement costs less than nothing,
/// and a pixel of exactly the wanted color left where it is costs nothing.
pub proof fn lemma_cost_nonneg_and_zero(
    apos: (u16, u16),
    bpos: (u16, u16),
    a: (u8, u8, u8),
    b: (u8, u8, u8),
    color_weight: int,
    spatial_weight: int,
)
    requires
        color_weight >= 0,
    ensures
        cost_spec(apos, bpos, a, b, color_weight, spatial_weight) >= 0,
        cost_spec(apos, apos, a, a, color_weight, spatial_weight) == 0,
{
    let c = color_dist_sq(a, b);
    let s = spatial_dist_sq(apos, bpos);
    assert(c >= 0) by (nonlinear_arith)
        requires
            c == (a.0 - b.0) * (a.0 - b.0) + (a.1 - b.1) * (a.1 - b.1) + (a.2 - b.2) * (a.2 - b.2),
    ;
    assert(c * color_weight >= 0) by (nonlinear_arith)
        requires
            c >= 0,
            color_weight >= 0,
    ;
    assert(s >= 0) by (nonlinear_arith)
        requires
            s == (apos.0 - bpos.0) * (apos.0 - bpos.0) + (apos.1 - bpos.1) * (apos.1 - bpos.1),
    ;
    assert(s * spatial_weight * spatial_weight >= 0) by (nonlinear_arith)
        requires
            s >= 0,
    ;
    assert(color_dist_sq(a, a) == 0);
    assert(spatial_dist_sq(apos, apos) == 0);
}

} // verus!
