//! The traversal shared by the point counter and the quad emitter: dash
//! phase, discontinuities, and how many points each column contributes.
use vstd::prelude::*;

verus! {

/// Bit of a column mask: the representative value is absent.
pub const REP_NULL: u8 = 1;

/// Bit of a column mask: the column's minimum is absent.
pub const MIN_NULL: u8 = 2;

/// Bit of a column mask: the column's maximum is absent.
pub const MAX_NULL: u8 = 4;

/// What the point counter tests before it counts a maximum: both range bits.
pub const RANGE_NULL: u8 = 6;

/// Dashing is on when it is asked for and its off part is not empty.
pub open spec fn dashing(dashed: bool, off: usize) -> bool {
    dashed && off > 0
}

/// The dash period fits in a machine word.
pub open spec fn dash_ok(dashed: bool, on: usize, off: usize) -> bool {
    dashing(dashed, off) ==> on + off <= usize::MAX
}

/// The path position falls in the off part of the dash period. An empty off
/// part turns dashing off.
pub open spec fn in_gap(dashed: bool, on: usize, off: usize, path: int) -> bool {
    dashing(dashed, off) && path % ((on + off) as int) >= on as int
}

pub open spec fn rep_absent(mask: u8) -> bool {
    mask & REP_NULL != 0
}

/// Points the counter gives an accepted column: the representative, and for a
/// column with a range its minimum, its maximum and a closing point.
pub open spec fn counted_points(mask: u8, ranged: bool) -> int {
    if !ranged {
        1
    } else {
        1 + (if mask & MIN_NULL == 0 { 1int } else { 0 }) + (if mask & RANGE_NULL == 0 { 1int } else { 0 }) + 1
    }
}

/// State of a walk after some columns: whether the line is broken, the dash
/// path position, and the points produced so far.
pub struct WalkState {
    pub broken: bool,
    pub path: int,
    pub points: int,
}

/// One column of a walk, where `k` is the number of points an accepted column
/// contributes. A column without a value breaks the line and restarts the
/// dash phase; a column with one is passed over while the path position is in
/// the off part of the dash, and drawn otherwise.
pub open spec fn walk_step(s: WalkState, mask: u8, k: int, dashed: bool, on: usize, off: usize) -> WalkState {
    if rep_absent(mask) {
        WalkState { broken: true, path: 0, ..s }
    } else if in_gap(dashed, on, off, s.path) {
        WalkState { path: s.path + 1, ..s }
    } else {
        WalkState { broken: false, path: s.path + k, points: s.points + k }
    }
}

/// The counter's walk over the first `n` columns.
pub open spec fn count_walk(mask: Seq<u8>, ranged: Seq<bool>, dashed: bool, on: usize, off: usize, n: nat) -> WalkState
    decreases n,
{
    if n == 0 {
        WalkState { broken: true, path: 0, points: 0 }
    } else {
        let i = n - 1;
        walk_step(
            count_walk(mask, ranged, dashed, on, off, (n - 1) as nat),
            mask[i],
            counted_points(mask[i], ranged[i]),
            dashed,
            on,
            off,
        )
    }
}

/// The points that the counter predicts for the whole series.
pub open spec fn point_number(mask: Seq<u8>, ranged: Seq<bool>, dashed: bool, on: usize, off: usize) -> int {
    count_walk(mask, ranged, dashed, on, off, mask.len()).points
}

proof fn lemma_count_walk_bounds(mask: Seq<u8>, ranged: Seq<bool>, dashed: bool, on: usize, off: usize, n: nat)
    requires
        n <= mask.len(),
        mask.len() == ranged.len(),
    ensures
        0 <= count_walk(mask, ranged, dashed, on, off, n).points <= 4 * n,
        0 <= count_walk(mask, ranged, dashed, on, off, n).path <= 4 * n,
    decreases n,
{
    if n > 0 {
        lemma_count_walk_bounds(mask, ranged, dashed, on, off, (n - 1) as nat);
    }
}

/// Counts the points that the quad emitter writes for this series and dash
/// pattern, so that the caller can size its buffers. `ranged[i]` tells whether
/// column `i` has a minimum distinct from its maximum.
pub fn get_point_number(null_mask: &[u8], ranged: &[bool], dashed: bool, dash0: usize, dash1: usize) -> (r: usize)
    requires
        null_mask@.len() == ranged@.len(),
        4 * null_mask@.len() <= usize::MAX,
        dash_ok(dashed, dash0, dash1),
    ensures
        r == point_number(null_mask@, ranged@, dashed, dash0, dash1),
{
    let mut broken = true;
    let mut point_i: usize = 0;
    let mut path_i: usize = 0;
    let n = null_mask.len();
    let mut i: usize = 0;
    while i < n
        invariant
            i <= n == null_mask@.len() == ranged@.len(),
            4 * n <= usize::MAX,
            dash_ok(dashed, dash0, dash1),
            count_walk(null_mask@, ranged@, dashed, dash0, dash1, i as nat)
                == (WalkState { broken: broken, path: path_i as int, points: point_i as int }),
        decreases n - i,
    {
        proof {
            lemma_count_walk_bounds(null_mask@, ranged@, dashed, dash0, dash1, i as nat);
        }
        let mask = null_mask[i];
        if mask & REP_NULL > 0 {
            broken = true;
            path_i = 0;
        } else if dashed && dash1 > 0 && path_i % (dash0 + dash1) >= dash0 {
            path_i += 1;
        } else {
            point_i += 1;
            path_i += 1;
            if ranged[i] {
                if mask & MIN_NULL == 0 {
                    point_i += 1;
                    path_i += 1;
                }
                if mask & RANGE_NULL == 0 {
                    point_i += 1;
                    path_i += 1;
                }
                point_i += 1;
                path_i += 1;
            }
            broken = false;
        }
        i += 1;
    }
    point_i
}


/// The points of all columns with a representative value, as if no column
/// were dashed away.
pub open spec fn solid_points(mask: Seq<u8>, ranged: Seq<bool>, n: nat) -> int
    decreases n,
{
    if n == 0 {
        0
    } else {
        let i = n - 1;
        solid_points(mask, ranged, (n - 1) as nat) + if rep_absent(mask[i]) {
            0
        } else {
            counted_points(mask[i], ranged[i])
        }
    }
}

proof fn lemma_solid_walk(mask: Seq<u8>, ranged: Seq<bool>, dashed: bool, on: usize, n: nat)
    requires
        n <= mask.len() == ranged.len(),
    ensures
        count_walk(mask, ranged, dashed, on, 0, n) == count_walk(mask, ranged, false, on, 0, n),
        count_walk(mask, ranged, dashed, on, 0, n).points == solid_points(mask, ranged, n),
    decreases n,
{
    if n > 0 {
        lemma_solid_walk(mask, ranged, dashed, on, (n - 1) as nat);
    }
}

/// A dash pattern whose off part is empty draws every point: the count is that
/// of the undashed walk, the points of every column with a value.
pub proof fn lemma_empty_gap_draws_all(mask: Seq<u8>, ranged: Seq<bool>, on: usize)
    requires
        mask.len() == ranged.len(),
    ensures
        point_number(mask, ranged, true, on, 0) == point_number(mask, ranged, false, on, 0),
        point_number(mask, ranged, true, on, 0) == solid_points(mask, ranged, mask.len()),
{
    lemma_solid_walk(mask, ranged, true, on, mask.len());
}

proof fn lemma_walk_prefix(m1: Seq<u8>, r1: Seq<bool>, m2: Seq<u8>, r2: Seq<bool>, dashed: bool, on: usize, off: usize, n: nat)
    requires
        n <= m1.len() && n <= r1.len() && n <= m2.len() && n <= r2.len(),
        forall|i: int| 0 <= i < n ==> m1[i] == m2[i] && r1[i] == r2[i],
    ensures
        count_walk(m1, r1, dashed, on, off, n) == count_walk(m2, r2, dashed, on, off, n),
    decreases n,
{
    if n > 0 {
        lemma_walk_prefix(m1, r1, m2, r2, dashed, on, off, (n - 1) as nat);
    }
}

proof fn lemma_walk_after_gap(a: Seq<u8>, ra: Seq<bool>, g: u8, rg: bool, b: Seq<u8>, rb: Seq<bool>, dashed: bool, on: usize, off: usize, k: nat)
    requires
        a.len() == ra.len(),
        b.len() == rb.len(),
        k <= b.len(),
        rep_absent(g),
    ensures
        ({
            let w = count_walk(a.push(g) + b, ra.push(rg) + rb, dashed, on, off, a.len() + 1 + k);
            let v = count_walk(b, rb, dashed, on, off, k);
            w == (WalkState { points: count_walk(a, ra, dashed, on, off, a.len()).points + v.points, ..v })
        }),
    decreases k,
{
    let m = a.push(g) + b;
    let r = ra.push(rg) + rb;
    if k == 0 {
        lemma_walk_prefix(m, r, a, ra, dashed, on, off, a.len());
        assert(m[a.len() as int] == g);
    } else {
        lemma_walk_after_gap(a, ra, g, rg, b, rb, dashed, on, off, (k - 1) as nat);
        assert(m[a.len() + k as int] == b[k - 1]);
        assert(r[a.len() + k as int] == rb[k - 1]);
    }
}

/// A column without a value splits the series: the count of the whole is
/// the count of the part before it plus the count of the part after it, the
/// dash phase starting afresh after the gap.
pub proof fn lemma_gap_splits_count(a: Seq<u8>, ra: Seq<bool>, g: u8, rg: bool, b: Seq<u8>, rb: Seq<bool>, dashed: bool, on: usize, off: usize)
    requires
        a.len() == ra.len(),
        b.len() == rb.len(),
        rep_absent(g),
    ensures
        point_number(a.push(g) + b, ra.push(rg) + rb, dashed, on, off)
            == point_number(a, ra, dashed, on, off) + point_number(b, rb, dashed, on, off),
{
    lemma_walk_after_gap(a, ra, g, rg, b, rb, dashed, on, off, b.len());
    assert((a.push(g) + b).len() == a.len() + 1 + b.len());
}

} // verus!
