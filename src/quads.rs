//! Quad emission: each accepted point becomes a degenerate quad, four corners
//! at one position, with the position it continues from.
use vstd::prelude::*;
use crate::walk::{
    count_walk, counted_points, dash_ok, in_gap, point_number, rep_absent, WalkState, MAX_NULL, MIN_NULL,
    RANGE_NULL, REP_NULL,
};

verus! {

/// Which of a column's values a point stands at.
#[derive(Clone, Copy, Debug, PartialEq, Eq, Structural)]
pub enum Level {
    Value,
    Min,
    Max,
}

/// The x of an anchor: a column's own x, or one unit before it.
#[derive(Clone, Copy, Debug, PartialEq, Eq, Structural)]
pub enum AnchorX {
    Before(usize),
    At(usize),
}

/// The position a point continues from: an x, and the y of one value of a
/// column.
#[derive(Clone, Copy, Debug, PartialEq, Eq, Structural)]
pub struct Anchor {
    pub x: AnchorX,
    pub column: usize,
    pub level: Level,
}

/// One emitted point: at the x of `column` and the y of its `level`, drawn
/// from `prev`.
#[derive(Clone, Copy, Debug, PartialEq, Eq, Structural)]
pub struct QuadPoint {
    pub column: usize,
    pub level: Level,
    pub prev: Anchor,
}

/// The zero-length stub a line starts from at column `i`: one unit to its left,
/// at its value.
pub open spec fn stub(i: usize) -> Anchor {
    Anchor { x: AnchorX::Before(i), column: i, level: Level::Value }
}

/// The position of a drawn point, as the next point continues from it.
pub open spec fn anchor_of(q: QuadPoint) -> Anchor {
    Anchor { x: AnchorX::At(q.column), column: q.column, level: q.level }
}

/// The points of accepted column `i`, the first continuing from `start`: its
/// value, then for a ranged column its minimum and maximum where present and
/// a point back at its value, each continuing from the point before it.
pub open spec fn column_quads(i: usize, mask: u8, ranged: bool, start: Anchor) -> Seq<QuadPoint> {
    let first = QuadPoint { column: i, level: Level::Value, prev: start };
    if !ranged {
        seq![first]
    } else {
        let has_min = mask & MIN_NULL == 0;
        let has_max = mask & MAX_NULL == 0;
        let min_point = QuadPoint { column: i, level: Level::Min, prev: anchor_of(first) };
        let after_min = if has_min { min_point } else { first };
        let max_point = QuadPoint { column: i, level: Level::Max, prev: anchor_of(after_min) };
        let after_max = if has_max { max_point } else { after_min };
        seq![first]
            + (if has_min { seq![min_point] } else { Seq::empty() })
            + (if has_max { seq![max_point] } else { Seq::empty() })
            + seq![QuadPoint { column: i, level: Level::Value, prev: anchor_of(after_max) }]
    }
}

/// State of the emitter after some columns.
pub struct EmitState {
    pub broken: bool,
    pub path: int,
    pub quads: Seq<QuadPoint>,
}

/// The emitter's walk over the first `n` columns.
pub open spec fn emit_walk(mask: Seq<u8>, ranged: Seq<bool>, dashed: bool, on: usize, off: usize, n: nat) -> EmitState
    decreases n,
{
    if n == 0 {
        EmitState { broken: true, path: 0, quads: Seq::empty() }
    } else {
        let i = n - 1;
        let s = emit_walk(mask, ranged, dashed, on, off, (n - 1) as nat);
        if rep_absent(mask[i]) {
            EmitState { broken: true, path: 0, ..s }
        } else if in_gap(dashed, on, off, s.path) {
            EmitState { path: s.path + 1, ..s }
        } else {
            let start = if s.broken { stub(i as usize) } else { anchor_of(s.quads.last()) };
            let q = column_quads(i as usize, mask[i], ranged[i], start);
            EmitState { broken: false, path: s.path + q.len(), quads: s.quads + q }
        }
    }
}

/// The points emitted for the whole series.
pub open spec fn emitted_quads(mask: Seq<u8>, ranged: Seq<bool>, dashed: bool, on: usize, off: usize) -> Seq<QuadPoint> {
    emit_walk(mask, ranged, dashed, on, off, mask.len()).quads
}

proof fn lemma_emit_walk_bounds(mask: Seq<u8>, ranged: Seq<bool>, dashed: bool, on: usize, off: usize, n: nat)
    requires
        n <= mask.len(),
        mask.len() == ranged.len(),
    ensures
        emit_walk(mask, ranged, dashed, on, off, n).quads.len() <= 4 * n,
        0 <= emit_walk(mask, ranged, dashed, on, off, n).path <= 4 * n,
        !emit_walk(mask, ranged, dashed, on, off, n).broken ==> emit_walk(mask, ranged, dashed, on, off, n).quads.len() > 0,
    decreases n,
{
    if n > 0 {
        lemma_emit_walk_bounds(mask, ranged, dashed, on, off, (n - 1) as nat);
    }
}

/// Appends the points of accepted column `i` and returns how many there were.
fn push_column_quads(quads: &mut Vec<QuadPoint>, i: usize, mask: u8, ranged: bool, start: Anchor) -> (added: usize)
    ensures
        final(quads)@ == old(quads)@ + column_quads(i, mask, ranged, start),
        added == column_quads(i, mask, ranged, start).len(),
        1 <= added <= 4,
        final(quads)@.last() == (QuadPoint { column: i, level: Level::Value, prev: final(quads)@.last().prev }),
{
    let first = QuadPoint { column: i, level: Level::Value, prev: start };
    let mut added: usize = 1;
    quads.push(first);
    if ranged {
        let mut prev = Anchor { x: AnchorX::At(i), column: i, level: Level::Value };
        if mask & MIN_NULL == 0 {
            quads.push(QuadPoint { column: i, level: Level::Min, prev: prev });
            prev = Anchor { x: AnchorX::At(i), column: i, level: Level::Min };
            added += 1;
        }
        if mask & MAX_NULL == 0 {
            quads.push(QuadPoint { column: i, level: Level::Max, prev: prev });
            prev = Anchor { x: AnchorX::At(i), column: i, level: Level::Max };
            added += 1;
        }
        quads.push(QuadPoint { column: i, level: Level::Value, prev: prev });
        added += 1;
    }
    proof {
        let q = column_quads(i, mask, ranged, start);
        assert(final(quads)@ =~= old(quads)@ + q);
    }
    added
}

/// Walks the series with the same dash and gap rules as the point counter and
/// lists the points to draw, each with the position it continues from.
/// `ranged[i]` tells whether column `i` has a minimum distinct from its maximum.
pub fn plan_quads(null_mask: &[u8], ranged: &[bool], dashed: bool, dash0: usize, dash1: usize) -> (quads: Vec<QuadPoint>)
    requires
        null_mask@.len() == ranged@.len(),
        4 * null_mask@.len() <= usize::MAX,
        dash_ok(dashed, dash0, dash1),
    ensures
        quads@ == emitted_quads(null_mask@, ranged@, dashed, dash0, dash1),
{
    let mut quads: Vec<QuadPoint> = Vec::new();
    let mut last = Anchor { x: AnchorX::Before(0), column: 0, level: Level::Value };
    let mut broken = true;
    let mut path_i: usize = 0;
    let n = null_mask.len();
    let mut i: usize = 0;
    while i < n
        invariant
            i <= n == null_mask@.len() == ranged@.len(),
            4 * n <= usize::MAX,
            dash_ok(dashed, dash0, dash1),
            emit_walk(null_mask@, ranged@, dashed, dash0, dash1, i as nat)
                == (EmitState { broken: broken, path: path_i as int, quads: quads@ }),
            !broken ==> quads@.len() > 0 && last == anchor_of(quads@.last()),
        decreases n - i,
    {
        proof {
            lemma_emit_walk_bounds(null_mask@, ranged@, dashed, dash0, dash1, i as nat);
        }
        let mask = null_mask[i];
        if mask & REP_NULL > 0 {
            broken = true;
            path_i = 0;
        } else if dashed && dash1 > 0 && path_i % (dash0 + dash1) >= dash0 {
            path_i += 1;
        } else {
            let start = if broken {
                Anchor { x: AnchorX::Before(i), column: i, level: Level::Value }
            } else {
                last
            };
            let added = push_column_quads(&mut quads, i, mask, ranged[i], start);
            path_i += added;
            last = Anchor { x: AnchorX::At(i), column: i, level: Level::Value };
            broken = false;
        }
        i += 1;
    }
    quads
}

/// Corner of the quad that index slot `j` (0 to 5) of a quad names: the two
/// triangles are corners (0, 1, 3) and (0, 2, 3).
pub open spec fn triangle_corner(j: int) -> int {
    if j == 0 || j == 3 {
        0
    } else if j == 1 {
        1
    } else if j == 4 {
        2
    } else {
        3
    }
}

/// The value of slot `t` of the index buffer, with quads numbered four
/// vertices apart.
pub open spec fn quad_index(t: int) -> u32 {
    (4 * (t / 6) + triangle_corner(t % 6)) as u32
}

proof fn lemma_slot(t: int, p: int)
    requires
        6 * p <= t < 6 * p + 6,
    ensures
        t / 6 == p,
        t % 6 == t - 6 * p,
{
}

/// Writes the two triangles of each of the first `count` quads.
pub fn write_quad_indices(count: usize, indices: &mut [u32])
    requires
        6 * count <= old(indices)@.len(),
    ensures
        final(indices)@.len() == old(indices)@.len(),
        forall|t: int| 0 <= t < 6 * count ==> #[trigger] final(indices)@[t] == quad_index(t),
        forall|t: int| 6 * count <= t < old(indices)@.len() ==> #[trigger] final(indices)@[t] == old(indices)@[t],
{
    let len = indices.len();
    let mut p: usize = 0;
    while p < count
        invariant
            p <= count,
            6 * count <= usize::MAX,
            6 * count <= indices@.len(),
            indices@.len() == old(indices)@.len(),
            forall|t: int| 0 <= t < 6 * p ==> #[trigger] indices@[t] == quad_index(t),
            forall|t: int| 6 * p <= t < indices@.len() ==> #[trigger] indices@[t] == old(indices)@[t],
        decreases count - p,
    {
        let base = 4 * p;
        let at = 6 * p;
        indices[at] = #[verifier::truncate] (base as u32);
        indices[at + 1] = #[verifier::truncate] ((base + 1) as u32);
        indices[at + 2] = #[verifier::truncate] ((base + 3) as u32);
        indices[at + 3] = #[verifier::truncate] (base as u32);
        indices[at + 4] = #[verifier::truncate] ((base + 2) as u32);
        indices[at + 5] = #[verifier::truncate] ((base + 3) as u32);
        assert forall|t: int| 6 * p <= t < 6 * p + 6 implies #[trigger] indices@[t] == quad_index(t) by {
            lemma_slot(t, p as int);
        }
        p += 1;
    }
}

/// A column's range bits agree with each other unless its minimum alone is
/// missing.
pub open spec fn paired_range_bits(mask: u8) -> bool {
    mask & MIN_NULL != 0 ==> mask & MAX_NULL != 0
}

proof fn lemma_column_lengths(i: usize, mask: u8, ranged: bool, start: Anchor)
    requires
        paired_range_bits(mask),
    ensures
        column_quads(i, mask, ranged, start).len() == counted_points(mask, ranged),
{
    assert(mask & MIN_NULL != 0 ==> mask & MAX_NULL != 0 ==> mask & RANGE_NULL != 0) by (bit_vector);
    assert(mask & MIN_NULL == 0 ==> (mask & RANGE_NULL == 0) == (mask & MAX_NULL == 0)) by (bit_vector);
}

proof fn lemma_walks_agree(mask: Seq<u8>, ranged: Seq<bool>, dashed: bool, on: usize, off: usize, n: nat)
    requires
        n <= mask.len() == ranged.len(),
        forall|i: int| 0 <= i < mask.len() ==> paired_range_bits(#[trigger] mask[i]),
    ensures
        ({
            let e = emit_walk(mask, ranged, dashed, on, off, n);
            count_walk(mask, ranged, dashed, on, off, n) == (WalkState { broken: e.broken, path: e.path, points: e.quads.len() as int })
        }),
    decreases n,
{
    if n > 0 {
        let i = n - 1;
        lemma_walks_agree(mask, ranged, dashed, on, off, (n - 1) as nat);
        let s = emit_walk(mask, ranged, dashed, on, off, (n - 1) as nat);
        let start = if s.broken { stub(i as usize) } else { anchor_of(s.quads.last()) };
        lemma_column_lengths(i as usize, mask[i], ranged[i], start);
    }
}

/// The counter predicts exactly the points the emitter writes, for every dash
/// pattern, wherever no column has a maximum without a minimum (a column of
/// the decimator never has): four vertices and six indices for each.
pub proof fn lemma_count_matches_quads(mask: Seq<u8>, ranged: Seq<bool>, dashed: bool, on: usize, off: usize)
    requires
        mask.len() == ranged.len(),
        forall|i: int| 0 <= i < mask.len() ==> paired_range_bits(#[trigger] mask[i]),
    ensures
        point_number(mask, ranged, dashed, on, off) == emitted_quads(mask, ranged, dashed, on, off).len(),
        4 * point_number(mask, ranged, dashed, on, off) == 4 * emitted_quads(mask, ranged, dashed, on, off).len(),
        6 * point_number(mask, ranged, dashed, on, off) == 6 * emitted_quads(mask, ranged, dashed, on, off).len(),
{
    lemma_walks_agree(mask, ranged, dashed, on, off, mask.len());
}

proof fn lemma_emit_grows(mask: Seq<u8>, ranged: Seq<bool>, dashed: bool, on: usize, off: usize, n: nat, m: nat)
    requires
        n <= m <= mask.len() == ranged.len(),
    ensures
        emit_walk(mask, ranged, dashed, on, off, n).quads.len() <= emit_walk(mask, ranged, dashed, on, off, m).quads.len(),
        emit_walk(mask, ranged, dashed, on, off, n).quads
            =~= emit_walk(mask, ranged, dashed, on, off, m).quads.subrange(0, emit_walk(mask, ranged, dashed, on, off, n).quads.len() as int),
    decreases m - n,
{
    if n < m {
        lemma_emit_grows(mask, ranged, dashed, on, off, n, (m - 1) as nat);
    }
}

proof fn lemma_stays_broken(mask: Seq<u8>, ranged: Seq<bool>, dashed: bool, on: usize, off: usize, a: nat, k: nat, b: nat)
    requires
        a + 1 <= k <= b <= mask.len() == ranged.len(),
        rep_absent(mask[a as int]),
        emit_walk(mask, ranged, dashed, on, off, b).quads.len() == emit_walk(mask, ranged, dashed, on, off, a + 1).quads.len(),
    ensures
        emit_walk(mask, ranged, dashed, on, off, k).broken,
    decreases k,
{
    if k > a + 1 {
        lemma_stays_broken(mask, ranged, dashed, on, off, a, (k - 1) as nat, b);
        lemma_emit_grows(mask, ranged, dashed, on, off, a + 1, (k - 1) as nat);
        lemma_emit_grows(mask, ranged, dashed, on, off, (k - 1) as nat, k);
        lemma_emit_grows(mask, ranged, dashed, on, off, k, b);
    }
}

/// After a column without a value, the next point drawn starts a new line: it
/// is its column's value, continuing from a zero-length stub one unit to its
/// left at the same height, never from a point before the gap, whatever the
/// dash pattern.
pub proof fn lemma_gap_restarts_line(mask: Seq<u8>, ranged: Seq<bool>, dashed: bool, on: usize, off: usize, a: usize, b: usize)
    requires
        a < b < mask.len() == ranged.len(),
        rep_absent(mask[a as int]),
        emit_walk(mask, ranged, dashed, on, off, b as nat).quads.len() == emit_walk(mask, ranged, dashed, on, off, (a + 1) as nat).quads.len(),
        emit_walk(mask, ranged, dashed, on, off, (b + 1) as nat).quads.len() > emit_walk(mask, ranged, dashed, on, off, b as nat).quads.len(),
    ensures
        ({
            let q = emitted_quads(mask, ranged, dashed, on, off)[emit_walk(mask, ranged, dashed, on, off, b as nat).quads.len() as int];
            &&& q.column == b
            &&& q.level == Level::Value
            &&& q.prev == stub(b)
        }),
{
    lemma_stays_broken(mask, ranged, dashed, on, off, a as nat, b as nat, b as nat);
    lemma_emit_grows(mask, ranged, dashed, on, off, (b + 1) as nat, mask.len());
    let s = emit_walk(mask, ranged, dashed, on, off, b as nat);
    let t = emit_walk(mask, ranged, dashed, on, off, (b + 1) as nat);
    assert(t.quads[s.quads.len() as int] == column_quads(b, mask[b as int], ranged[b as int], stub(b))[0]);
}

/// Point `k` starts a line, at a stub of its own column's value, or continues
/// from the point drawn just before it.
pub open spec fn continues(quads: Seq<QuadPoint>, k: int) -> bool {
    ||| quads[k].level == Level::Value && quads[k].prev == stub(quads[k].column)
    ||| k > 0 && quads[k].prev == anchor_of(quads[k - 1])
}

proof fn lemma_column_continues(i: usize, mask: u8, ranged: bool, start: Anchor)
    ensures
        forall|j: int| 1 <= j < column_quads(i, mask, ranged, start).len() ==>
            (#[trigger] column_quads(i, mask, ranged, start)[j]).prev == anchor_of(column_quads(i, mask, ranged, start)[j - 1]),
        column_quads(i, mask, ranged, start)[0] == (QuadPoint { column: i, level: Level::Value, prev: start }),
        column_quads(i, mask, ranged, start).len() >= 1,
{
    let q = column_quads(i, mask, ranged, start);
    let first = QuadPoint { column: i, level: Level::Value, prev: start };
    if ranged {
        let has_min = mask & MIN_NULL == 0;
        let has_max = mask & MAX_NULL == 0;
        let min_point = QuadPoint { column: i, level: Level::Min, prev: anchor_of(first) };
        let after_min = if has_min { min_point } else { first };
        let max_point = QuadPoint { column: i, level: Level::Max, prev: anchor_of(after_min) };
        let after_max = if has_max { max_point } else { after_min };
        let close = QuadPoint { column: i, level: Level::Value, prev: anchor_of(after_max) };
        if has_min && has_max {
            assert(q =~= seq![first, min_point, max_point, close]);
        } else if has_min {
            assert(q =~= seq![first, min_point, close]);
        } else if has_max {
            assert(q =~= seq![first, max_point, close]);
        } else {
            assert(q =~= seq![first, close]);
        }
    } else {
        assert(q =~= seq![first]);
    }
}

proof fn lemma_append_continues(done: Seq<QuadPoint>, q: Seq<QuadPoint>)
    requires
        forall|k: int| 0 <= k < done.len() ==> continues(done, k),
        q.len() >= 1,
        forall|j: int| 1 <= j < q.len() ==> (#[trigger] q[j]).prev == anchor_of(q[j - 1]),
        q[0].level == Level::Value,
        q[0].prev == stub(q[0].column) || (done.len() > 0 && q[0].prev == anchor_of(done.last())),
    ensures
        forall|k: int| 0 <= k < (done + q).len() ==> continues(done + q, k),
{
    let t = done + q;
    assert forall|k: int| 0 <= k < t.len() implies continues(t, k) by {
        if k < done.len() {
            assert(continues(done, k));
            assert(t[k] == done[k]);
            if k > 0 {
                assert(t[k - 1] == done[k - 1]);
            }
        } else if k == done.len() {
            assert(t[k] == q[0]);
            if k > 0 {
                assert(t[k - 1] == done.last());
            }
        } else {
            let j = k - done.len();
            assert(t[k] == q[j]);
            assert(t[k - 1] == q[j - 1]);
        }
    }
}

#[verifier::spinoff_prover]
#[verifier::rlimit(60)]
proof fn lemma_walk_continues(mask: Seq<u8>, ranged: Seq<bool>, dashed: bool, on: usize, off: usize, n: nat)
    requires
        n <= mask.len() == ranged.len(),
    ensures
        forall|k: int| 0 <= k < emit_walk(mask, ranged, dashed, on, off, n).quads.len() ==>
            continues(emit_walk(mask, ranged, dashed, on, off, n).quads, k),
    decreases n,
{
    if n > 0 {
        let i = n - 1;
        lemma_walk_continues(mask, ranged, dashed, on, off, (n - 1) as nat);
        lemma_emit_walk_bounds(mask, ranged, dashed, on, off, (n - 1) as nat);
        let s = emit_walk(mask, ranged, dashed, on, off, (n - 1) as nat);
        let g = in_gap(dashed, on, off, s.path);
        if !rep_absent(mask[i]) && !g {
            let start = if s.broken { stub(i as usize) } else { anchor_of(s.quads.last()) };
            let q = column_quads(i as usize, mask[i], ranged[i], start);
            lemma_column_continues(i as usize, mask[i], ranged[i], start);
            lemma_append_continues(s.quads, q);
            assert(emit_walk(mask, ranged, dashed, on, off, n).quads == s.quads + q);
        } else {
            assert(emit_walk(mask, ranged, dashed, on, off, n).quads == s.quads);
        }
    }
}

/// Every drawn point either starts a line, from a zero-length stub at its own
/// value, or continues from the point drawn just before it: the previous
/// position of a point is never one that was dashed away or left out.
pub proof fn lemma_points_continue(mask: Seq<u8>, ranged: Seq<bool>, dashed: bool, on: usize, off: usize)
    requires
        mask.len() == ranged.len(),
    ensures
        forall|k: int| 0 <= k < emitted_quads(mask, ranged, dashed, on, off).len() ==>
            continues(emitted_quads(mask, ranged, dashed, on, off), k),
{
    lemma_walk_continues(mask, ranged, dashed, on, off, mask.len());
}

} // verus!
