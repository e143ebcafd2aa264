//! Column decimation: a forward cursor over the raw series picks, for each
//! pixel column, the points that fall before it and the bracket it sits in.
//!
//! Positions and values are compared through order keys: integers that order
//! as the numbers they stand for. Turning keys back into render-space numbers
//! is left to the caller.
use vstd::prelude::*;
use crate::quads::{emitted_quads, lemma_count_matches_quads, paired_range_bits};
use crate::walk::point_number;
use crate::walk::{MAX_NULL, MIN_NULL, REP_NULL};

verus! {

/// The sign bit of a 64-bit floating-point bit pattern.
pub const SIGN_BIT: u64 = 0x8000_0000_0000_0000;

/// The order key of a 64-bit floating-point number given by its bit pattern:
/// negative numbers have their bits inverted, others their sign bit set, and
/// negative zero takes the key of zero. Keys of non-NaN numbers then compare
/// as the numbers do.
pub open spec fn key_of(bits: u64) -> u64 {
    if bits == SIGN_BIT {
        SIGN_BIT
    } else if bits >= SIGN_BIT {
        !bits
    } else {
        (bits + SIGN_BIT) as u64
    }
}

pub fn order_key(bits: u64) -> (r: u64)
    ensures
        r == key_of(bits),
        bits < SIGN_BIT ==> r >= SIGN_BIT,
{
    if bits == SIGN_BIT {
        SIGN_BIT
    } else if bits >= SIGN_BIT {
        !bits
    } else {
        bits + SIGN_BIT
    }
}

/// Keys order bit patterns as the numbers they encode: among non-negative
/// patterns by magnitude upwards, among negative ones by magnitude downwards,
/// and every negative number below every non-negative one.
pub proof fn lemma_key_order(a: u64, b: u64)
    ensures
        a < b < SIGN_BIT ==> key_of(a) < key_of(b),
        SIGN_BIT < a < b ==> key_of(a) > key_of(b),
        SIGN_BIT < a && b < SIGN_BIT ==> key_of(a) < key_of(b),
        a == SIGN_BIT ==> key_of(a) == key_of(0),
{
    assert(SIGN_BIT < a ==> !a < SIGN_BIT) by (bit_vector);
    assert(SIGN_BIT < a < b ==> !a > !b) by (bit_vector);
}

/// How a column's representative value is obtained.
#[derive(Clone, Copy, Debug, PartialEq, Eq, Structural)]
pub enum Representative {
    /// The column has no value: a break in the line.
    Absent,
    /// The value of raw point `i`, as it is.
    Sample(usize),
    /// The line from raw point `i` to raw point `i + 1`, taken at the column's x.
    Interpolated(usize),
}

/// One decimated column: its representative, and the raw points holding the
/// least and the greatest value swept into it.
#[derive(Clone, Copy, Debug, PartialEq, Eq, Structural)]
pub struct Column {
    pub representative: Representative,
    pub min: Option<usize>,
    pub max: Option<usize>,
}

impl Column {
    /// The column's three absence bits: representative, minimum, maximum.
    pub open spec fn mask(self) -> u8 {
        ((if self.representative == Representative::Absent { REP_NULL } else { 0u8 })
            + (if self.min.is_none() { MIN_NULL } else { 0u8 })
            + (if self.max.is_none() { MAX_NULL } else { 0u8 })) as u8
    }

    pub fn null_mask(&self) -> (r: u8)
        ensures
            r == self.mask(),
    {
        let mut r: u8 = 0;
        if let Representative::Absent = self.representative {
            r = r + REP_NULL;
        }
        if self.min.is_none() {
            r = r + MIN_NULL;
        }
        if self.max.is_none() {
            r = r + MAX_NULL;
        }
        r
    }
}

/// Where the cursor stands between columns, and the bracket that the last
/// column with a bracket used.
pub struct Cursor {
    pub at: int,
    pub last: Option<usize>,
}

/// What a sweep has found: where it stopped, and the points with the least
/// and the greatest value so far.
pub struct Sweep {
    pub at: int,
    pub min: Option<usize>,
    pub max: Option<usize>,
}

/// The raw point `i` becomes the minimum when none was seen or its value is
/// strictly below.
pub open spec fn take_min(ys: Seq<u64>, min: Option<usize>, i: int) -> Option<usize> {
    if min is None || ys[i] < ys[min->0 as int] { Some(i as usize) } else { min }
}

pub open spec fn take_max(ys: Seq<u64>, max: Option<usize>, i: int) -> Option<usize> {
    if max is None || ys[i] > ys[max->0 as int] { Some(i as usize) } else { max }
}

/// Advances past every point whose next neighbour lies before `x`, folding the
/// values of the non-null ones into the minimum and maximum.
pub open spec fn sweep(xs: Seq<u64>, ys: Seq<u64>, null: Seq<u8>, length: int, x: u64, s: Sweep) -> Sweep
    decreases length - s.at,
{
    if 0 <= s.at && s.at + 2 < length && xs[s.at + 1] < x {
        let i = s.at;
        let next = if null[i] > 0 {
            Sweep { at: i + 1, ..s }
        } else {
            Sweep { at: i + 1, min: take_min(ys, s.min, i), max: take_max(ys, s.max, i) }
        };
        sweep(xs, ys, null, length, x, next)
    } else {
        s
    }
}

/// The cursor steps back once onto a null point it passed last time.
pub open spec fn step_back(null: Seq<u8>, length: int, at: int) -> int {
    if at > 0 && at <= length && null[at - 1] > 0 { at - 1 } else { at }
}

/// The first advance of a column, which folds nothing.
pub open spec fn first_advance(xs: Seq<u64>, length: int, x: u64, at: int) -> int {
    if 0 <= at && at + 2 < length && xs[at + 1] < x { at + 1 } else { at }
}

/// The column at x, and the cursor after it.
pub open spec fn column_step(xs: Seq<u64>, ys: Seq<u64>, null: Seq<u8>, length: int, x: u64, c: Cursor) -> (Cursor, Column) {
    let start = first_advance(xs, length, x, step_back(null, length, c.at));
    let s = sweep(xs, ys, null, length, x, Sweep { at: start, min: None, max: None });
    let i = s.at;
    if i + 1 >= length || null[i] > 0 || null[i + 1] > 0 {
        let rep = if i + 1 >= length || null[i] > 0 { Representative::Absent } else { Representative::Sample(i as usize) };
        (Cursor { at: i + 1, last: c.last }, Column { representative: rep, min: s.min, max: s.max })
    } else {
        let rep = if c.last == Some(i as usize) { Representative::Interpolated(i as usize) } else { Representative::Sample(i as usize) };
        (Cursor { at: i, last: Some(i as usize) }, Column { representative: rep, min: s.min, max: s.max })
    }
}

/// The cursor after the first `n` columns, and those columns.
pub open spec fn decimate_walk(xs: Seq<u64>, ys: Seq<u64>, null: Seq<u8>, length: int, pixel_xs: Seq<u64>, n: nat) -> (Cursor, Seq<Column>)
    decreases n,
{
    if n == 0 {
        (Cursor { at: 0, last: None }, Seq::empty())
    } else {
        let (c, cols) = decimate_walk(xs, ys, null, length, pixel_xs, (n - 1) as nat);
        let (c2, col) = column_step(xs, ys, null, length, pixel_xs[n - 1], c);
        (c2, cols.push(col))
    }
}

/// The decimated series for the given pixel x keys.
pub open spec fn decimated(xs: Seq<u64>, ys: Seq<u64>, null: Seq<u8>, length: int, pixel_xs: Seq<u64>) -> Seq<Column> {
    decimate_walk(xs, ys, null, length, pixel_xs, pixel_xs.len()).1
}

/// The raw points from `from` up to `to` that the sweep of column `c` walks
/// over: where its cursor started after the first advance, and where it stopped.
pub open spec fn swept_range(xs: Seq<u64>, ys: Seq<u64>, null: Seq<u8>, length: int, pixel_xs: Seq<u64>, c: nat) -> (int, int) {
    let cur = decimate_walk(xs, ys, null, length, pixel_xs, c).0;
    let x = pixel_xs[c as int];
    let start = first_advance(xs, length, x, step_back(null, length, cur.at));
    (start, sweep(xs, ys, null, length, x, Sweep { at: start, min: None, max: None }).at)
}

/// `min` and `max` hold the least and the greatest value among the non-null
/// points from `from` up to `to`, and are absent when there is none.
pub open spec fn extremes(ys: Seq<u64>, null: Seq<u8>, from: int, to: int, min: Option<usize>, max: Option<usize>) -> bool {
    &&& min is Some ==> from <= min->0 < to && from <= max->0 < to
    &&& forall|j: int| from <= j < to && null[j] == 0 ==> min is Some && ys[min->0 as int] <= #[trigger] ys[j] <= ys[max->0 as int]
}

/// What holds of a decimated column at pixel x key `x`: the minimum and the
/// maximum are found together, at non-null points, the minimum no greater; a
/// sample is a non-null point; an interpolation runs between two non-null
/// neighbours whose right end does not lie before `x`, unless it is the
/// series' last pair.
pub open spec fn column_ok(xs: Seq<u64>, ys: Seq<u64>, null: Seq<u8>, length: int, x: u64, col: Column) -> bool {
    &&& col.min.is_some() == col.max.is_some()
    &&& col.min is Some ==> {
        &&& col.min->0 < length && col.max->0 < length
        &&& null[col.min->0 as int] == 0 && null[col.max->0 as int] == 0
        &&& ys[col.min->0 as int] <= ys[col.max->0 as int]
    }
    &&& col.representative is Sample ==> {
        let i = col.representative->Sample_0 as int;
        i + 1 < length && null[i] == 0
    }
    &&& col.representative is Interpolated ==> {
        let i = col.representative->Interpolated_0 as int;
        &&& i + 1 < length
        &&& null[i] == 0 && null[i + 1] == 0
        &&& i + 2 >= length || x <= xs[i + 1]
    }
}

spec fn sweep_ok(ys: Seq<u64>, null: Seq<u8>, length: int, s: Sweep) -> bool {
    &&& s.at >= 0
    &&& s.min.is_some() == s.max.is_some()
    &&& s.min is Some ==> {
        &&& s.min->0 < length && s.max->0 < length
        &&& null[s.min->0 as int] == 0 && null[s.max->0 as int] == 0
        &&& ys[s.min->0 as int] <= ys[s.max->0 as int]
    }
}

proof fn lemma_sweep_ok(xs: Seq<u64>, ys: Seq<u64>, null: Seq<u8>, length: int, x: u64, s: Sweep, from: int)
    requires
        length <= xs.len() && length <= ys.len() && length <= null.len(),
        length <= usize::MAX,
        sweep_ok(ys, null, length, s),
        0 <= from <= s.at,
        extremes(ys, null, from, s.at, s.min, s.max),
    ensures
        extremes(ys, null, from, sweep(xs, ys, null, length, x, s).at, sweep(xs, ys, null, length, x, s).min, sweep(xs, ys, null, length, x, s).max),
        sweep_ok(ys, null, length, sweep(xs, ys, null, length, x, s)),
        sweep(xs, ys, null, length, x, s).at >= s.at,
        !(sweep(xs, ys, null, length, x, s).at + 2 < length && xs[sweep(xs, ys, null, length, x, s).at + 1] < x),
    decreases length - s.at,
{
    if 0 <= s.at && s.at + 2 < length && xs[s.at + 1] < x {
        let i = s.at;
        let next = if null[i] > 0 {
            Sweep { at: i + 1, ..s }
        } else {
            Sweep { at: i + 1, min: take_min(ys, s.min, i), max: take_max(ys, s.max, i) }
        };
        assert(extremes(ys, null, from, next.at, next.min, next.max));
        lemma_sweep_ok(xs, ys, null, length, x, next, from);
    }
}

proof fn lemma_walk_ok(xs: Seq<u64>, ys: Seq<u64>, null: Seq<u8>, length: int, pixel_xs: Seq<u64>, n: nat)
    requires
        length <= xs.len() && length <= ys.len() && length <= null.len(),
        length <= usize::MAX,
        n <= pixel_xs.len(),
    ensures
        decimate_walk(xs, ys, null, length, pixel_xs, n).0.at >= 0,
        decimate_walk(xs, ys, null, length, pixel_xs, n).1.len() == n,
        forall|c: int| 0 <= c < n ==> column_ok(xs, ys, null, length, pixel_xs[c], #[trigger] decimate_walk(xs, ys, null, length, pixel_xs, n).1[c]),
        forall|c: nat| c < n ==> extremes(
            ys,
            null,
            (#[trigger] swept_range(xs, ys, null, length, pixel_xs, c)).0,
            swept_range(xs, ys, null, length, pixel_xs, c).1,
            decimate_walk(xs, ys, null, length, pixel_xs, n).1[c as int].min,
            decimate_walk(xs, ys, null, length, pixel_xs, n).1[c as int].max,
        ),
    decreases n,
{
    if n > 0 {
        lemma_walk_ok(xs, ys, null, length, pixel_xs, (n - 1) as nat);
        let (cur, cols) = decimate_walk(xs, ys, null, length, pixel_xs, (n - 1) as nat);
        let x = pixel_xs[n - 1];
        let start = first_advance(xs, length, x, step_back(null, length, cur.at));
        lemma_sweep_ok(xs, ys, null, length, x, Sweep { at: start, min: None, max: None }, start);
        let all = decimate_walk(xs, ys, null, length, pixel_xs, n).1;
        assert forall|c: int| 0 <= c < n implies column_ok(xs, ys, null, length, pixel_xs[c], #[trigger] all[c]) by {
            if c < n - 1 {
                assert(all[c] == cols[c]);
            }
        }
        assert forall|c: nat| c < n implies extremes(
            ys,
            null,
            (#[trigger] swept_range(xs, ys, null, length, pixel_xs, c)).0,
            swept_range(xs, ys, null, length, pixel_xs, c).1,
            all[c as int].min,
            all[c as int].max,
        ) by {
            if c < n - 1 {
                assert(all[c as int] == cols[c as int]);
            }
        }
    }
}

/// The furthest point that the sweeps of the first `n` columns reached.
pub open spec fn frontier(xs: Seq<u64>, ys: Seq<u64>, null: Seq<u8>, length: int, pixel_xs: Seq<u64>, n: nat) -> int
    decreases n,
{
    if n == 0 {
        0
    } else {
        let f = frontier(xs, ys, null, length, pixel_xs, (n - 1) as nat);
        let e = swept_range(xs, ys, null, length, pixel_xs, (n - 1) as nat).1;
        if e > f { e } else { f }
    }
}

proof fn lemma_frontier_grows(xs: Seq<u64>, ys: Seq<u64>, null: Seq<u8>, length: int, pixel_xs: Seq<u64>, n: nat, m: nat)
    requires
        n <= m,
    ensures
        frontier(xs, ys, null, length, pixel_xs, n) <= frontier(xs, ys, null, length, pixel_xs, m),
    decreases m - n,
{
    if n < m {
        lemma_frontier_grows(xs, ys, null, length, pixel_xs, n, (m - 1) as nat);
    }
}

proof fn lemma_walk_frontier(xs: Seq<u64>, ys: Seq<u64>, null: Seq<u8>, length: int, pixel_xs: Seq<u64>, n: nat)
    requires
        length <= xs.len() && length <= ys.len() && length <= null.len(),
        length <= usize::MAX,
        n <= pixel_xs.len(),
    ensures
        decimate_walk(xs, ys, null, length, pixel_xs, n).0.at >= frontier(xs, ys, null, length, pixel_xs, n),
        forall|c: nat, j: int| c < n && (#[trigger] swept_range(xs, ys, null, length, pixel_xs, c)).0 <= j
            < swept_range(xs, ys, null, length, pixel_xs, c).1 && #[trigger] null[j] == 0
            ==> j >= frontier(xs, ys, null, length, pixel_xs, c),
    decreases n,
{
    if n > 0 {
        let c = (n - 1) as nat;
        lemma_walk_frontier(xs, ys, null, length, pixel_xs, c);
        lemma_walk_ok(xs, ys, null, length, pixel_xs, c);
        let cur = decimate_walk(xs, ys, null, length, pixel_xs, c).0;
        let x = pixel_xs[c as int];
        let start = first_advance(xs, length, x, step_back(null, length, cur.at));
        lemma_sweep_ok(xs, ys, null, length, x, Sweep { at: start, min: None, max: None }, start);
        assert(start >= cur.at || (start == cur.at - 1 && null[start] > 0));
    }
}

/// No non-null raw point is swept into two columns: the sweeps of distinct
/// columns share no point with a value.
pub proof fn lemma_swept_once(xs: Seq<u64>, ys: Seq<u64>, null: Seq<u8>, length: int, pixel_xs: Seq<u64>, c1: nat, c2: nat, j: int)
    requires
        length <= xs.len() && length <= ys.len() && length <= null.len(),
        length <= usize::MAX,
        c1 < c2 < pixel_xs.len(),
        null[j] == 0,
        swept_range(xs, ys, null, length, pixel_xs, c1).0 <= j < swept_range(xs, ys, null, length, pixel_xs, c1).1,
    ensures
        !(swept_range(xs, ys, null, length, pixel_xs, c2).0 <= j < swept_range(xs, ys, null, length, pixel_xs, c2).1),
{
    lemma_walk_frontier(xs, ys, null, length, pixel_xs, c2 + 1);
    lemma_frontier_grows(xs, ys, null, length, pixel_xs, c1 + 1, c2);
}

/// A decimated column's mask never has its minimum bit without its maximum bit.
pub proof fn lemma_mask_pairs_range(col: Column)
    requires
        col.min.is_some() == col.max.is_some(),
    ensures
        paired_range_bits(col.mask()),
{
    let a: u8 = if col.representative == Representative::Absent { REP_NULL } else { 0u8 };
    let b: u8 = if col.min.is_none() { MIN_NULL } else { 0u8 };
    let c: u8 = if col.max.is_none() { MAX_NULL } else { 0u8 };
    assert(b == 2 <==> c == 4);
    assert((a == 0 || a == 1) && (b == 0 || b == 2) && (c == 0 || c == 4) && (b == 2 <==> c == 4)
        ==> (((a + b + c) as u8) & 2 != 0 ==> ((a + b + c) as u8) & 4 != 0)) by (bit_vector);
}

/// Counting and emitting agree on every decimated series: whatever the dash
/// pattern and whichever columns are ranged, the count predicts the points
/// written, four vertices and six indices for each.
pub proof fn lemma_decimated_counts_match(cols: Seq<Column>, ranged: Seq<bool>, dashed: bool, on: usize, off: usize)
    requires
        cols.len() == ranged.len(),
        forall|c: int| 0 <= c < cols.len() ==> (#[trigger] cols[c]).min.is_some() == cols[c].max.is_some(),
    ensures
        ({
            let mask = cols.map_values(|col: Column| col.mask());
            point_number(mask, ranged, dashed, on, off) == emitted_quads(mask, ranged, dashed, on, off).len()
        }),
{
    let mask = cols.map_values(|col: Column| col.mask());
    assert forall|i: int| 0 <= i < mask.len() implies paired_range_bits(#[trigger] mask[i]) by {
        lemma_mask_pairs_range(cols[i]);
    }
    lemma_count_matches_quads(mask, ranged, dashed, on, off);
}

/// The sweep from `at`, run on the raw series.
fn sweep_from(xs: &[u64], ys: &[u64], null: &[u8], length: usize, x: u64, at: usize) -> (r: (usize, Option<usize>, Option<usize>))
    requires
        length <= xs@.len(),
        length <= ys@.len(),
        length <= null@.len(),
    ensures
        ({
            let s = sweep(xs@, ys@, null@, length as int, x, Sweep { at: at as int, min: None, max: None });
            r.0 == s.at && r.1 == s.min && r.2 == s.max
        }),
        at <= r.0,
        r.0 <= at || r.0 + 2 <= length,
{
    let mut i = at;
    let mut min: Option<usize> = None;
    let mut max: Option<usize> = None;
    while length > 2 && i < length - 2 && xs[i + 1] < x
        invariant
            length <= xs@.len(),
            length <= ys@.len(),
            length <= null@.len(),
            at <= i,
            i <= at || i + 2 <= length,
            min is Some ==> min->0 < length,
            max is Some ==> max->0 < length,
            sweep(xs@, ys@, null@, length as int, x, Sweep { at: i as int, min: min, max: max })
                == sweep(xs@, ys@, null@, length as int, x, Sweep { at: at as int, min: None, max: None }),
        decreases length - i,
    {
        if null[i] > 0 {
            i += 1;
        } else {
            let y = ys[i];
            match min {
                None => min = Some(i),
                Some(m) => if y < ys[m] {
                    min = Some(i);
                },
            }
            match max {
                None => max = Some(i),
                Some(m) => if y > ys[m] {
                    max = Some(i);
                },
            }
            i += 1;
        }
    }
    (i, min, max)
}

/// Decimates a raw series of `length` points into one column per pixel x key.
/// `xs` and `ys` hold the order keys of the points' positions and values, and a
/// nonzero `data_null_mask` entry marks a point as absent.
pub fn decimate_columns(length: usize, xs: &[u64], ys: &[u64], data_null_mask: &[u8], pixel_xs: &[u64]) -> (columns: Vec<Column>)
    requires
        length <= xs@.len(),
        length <= ys@.len(),
        length <= data_null_mask@.len(),
        length + pixel_xs@.len() <= usize::MAX,
    ensures
        columns@ == decimated(xs@, ys@, data_null_mask@, length as int, pixel_xs@),
        columns@.len() == pixel_xs@.len(),
        forall|c: int| 0 <= c < columns@.len() ==> column_ok(xs@, ys@, data_null_mask@, length as int, pixel_xs@[c], #[trigger] columns@[c]),
        forall|c: int| 0 <= c < columns@.len() ==> paired_range_bits(#[trigger] columns@[c].mask()),
        forall|c: nat| c < columns@.len() ==> extremes(
            ys@,
            data_null_mask@,
            (#[trigger] swept_range(xs@, ys@, data_null_mask@, length as int, pixel_xs@, c)).0,
            swept_range(xs@, ys@, data_null_mask@, length as int, pixel_xs@, c).1,
            columns@[c as int].min,
            columns@[c as int].max,
        ),
{
    let mut columns: Vec<Column> = Vec::new();
    let mut i: usize = 0;
    let mut last: Option<usize> = None;
    let mut c: usize = 0;
    while c < pixel_xs.len()
        invariant
            length <= xs@.len(),
            length <= ys@.len(),
            length <= data_null_mask@.len(),
            length + pixel_xs@.len() <= usize::MAX,
            c <= pixel_xs@.len(),
            i <= length + c,
            decimate_walk(xs@, ys@, data_null_mask@, length as int, pixel_xs@, c as nat)
                == (Cursor { at: i as int, last: last }, columns@),
        decreases pixel_xs@.len() - c,
    {
        let x = pixel_xs[c];
        if i > 0 && i <= length && data_null_mask[i - 1] > 0 {
            i -= 1;
        }
        if length > 2 && i < length - 2 && xs[i + 1] < x {
            i += 1;
        }
        let (at, min, max) = sweep_from(xs, ys, data_null_mask, length, x, i);
        i = at;
        if i + 1 >= length || data_null_mask[i] > 0 || data_null_mask[i + 1] > 0 {
            let representative = if i + 1 >= length || data_null_mask[i] > 0 {
                Representative::Absent
            } else {
                Representative::Sample(i)
            };
            columns.push(Column { representative, min, max });
            i += 1;
        } else {
            let representative = if last == Some(i) {
                Representative::Interpolated(i)
            } else {
                Representative::Sample(i)
            };
            columns.push(Column { representative, min, max });
            last = Some(i);
        }
        c += 1;
    }
    proof {
        lemma_walk_ok(xs@, ys@, data_null_mask@, length as int, pixel_xs@, pixel_xs@.len());
        assert forall|k: int| 0 <= k < columns@.len() implies paired_range_bits(#[trigger] columns@[k].mask()) by {
            lemma_mask_pairs_range(columns@[k]);
        }
    }
    columns
}

} // verus!
