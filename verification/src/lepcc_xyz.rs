//! LEPCC XYZ: the integer part of the point coordinate codec.
//!
//! Points are quantized into the cells of a 3D grid. The cells are sorted by
//! their position in the xy plane; each occupied row is then stored as its
//! distance from the previous occupied row and its number of cells, and each
//! cell as its distance from the previous cell's column and its height.
//! Each of these four sequences is cut into sections of 128 values, stored as
//! the bit-stuffed section minimums followed by every section, bit stuffed,
//! less its minimum.
//!
//! After the 16-byte top header the blob holds its size (8 bytes), the extent
//! and the largest errors (72 bytes, written by the caller), the number of
//! points (4 bytes) and 4 reserved bytes; the four sequences follow.
use vstd::prelude::*;
use std::cmp::Ordering;
use crate::error::{LepccError, failed, is_failed, is_too_small};
use crate::bit_math::{le_bytes, le_value};
use crate::blob::{seal, seal_blob, push_u32, read_u16, read_u32, get_blob_size, blob_size_result, blob_size_error};
use crate::bit_stuffer2::{BitStuffer2, bit_width, seq_max, simple_encoded_len, simple_encoding, simple_encodable,
    simple_decoding, simple_decoding_error, block_len, block_count_size, block_count, block_width, block_payload};

verus! {

/// Number of values in a section.
pub const SECTION_SIZE: usize = 128;

/// A quantized point: its cell in the grid, its position among the input
/// points, and the position of its cell in the xy plane.
#[derive(Debug, Clone, Copy, PartialEq, Eq, Structural)]
pub struct Cell3D {
    pub x: i32,
    pub y: i32,
    pub z: i32,
    pub orig_pt_index: usize,
    pub xy_cell_index: i64,
}

impl Cell3D {
    /// The cell `(x, y, z)` of a grid `nx` cells wide.
    pub fn new(x: i32, y: i32, z: i32, orig_pt_index: usize, nx: i32) -> (c: Self)
        ensures
            c.x == x,
            c.y == y,
            c.z == z,
            c.orig_pt_index == orig_pt_index,
            c.xy_cell_index == y * nx + x,
    {
        let yy = y as i64;
        let nn = nx as i64;
        assert(-0x8000_0000 * 0x8000_0000 <= yy * nn <= 0x8000_0000 * 0x8000_0000) by (nonlinear_arith)
            requires
                -0x8000_0000 <= yy <= 0x7FFF_FFFF,
                -0x8000_0000 <= nn <= 0x7FFF_FFFF,
        ;
        let xy_cell_index = yy * nn + (x as i64);
        Cell3D { x, y, z, orig_pt_index, xy_cell_index }
    }
}

/// Orders cells by their position in the xy plane.
pub fn cell3d_compare(a: &Cell3D, b: &Cell3D) -> (r: Ordering)
    ensures
        (r == Ordering::Less) == (a.xy_cell_index < b.xy_cell_index),
        (r == Ordering::Equal) == (a.xy_cell_index == b.xy_cell_index),
        (r == Ordering::Greater) == (a.xy_cell_index > b.xy_cell_index),
{
    if a.xy_cell_index < b.xy_cell_index {
        Ordering::Less
    } else if a.xy_cell_index == b.xy_cell_index {
        Ordering::Equal
    } else {
        Ordering::Greater
    }
}

// --- sorting ----------------------------------------------------------------
/// Merges two sequences of cells; of two cells at the same position, the one
/// of `a` comes first.
pub open spec fn merge_cells(a: Seq<Cell3D>, b: Seq<Cell3D>) -> Seq<Cell3D>
    decreases a.len() + b.len(),
{
    if a.len() == 0 {
        b
    } else if b.len() == 0 {
        a
    } else if b[0].xy_cell_index < a[0].xy_cell_index {
        seq![b[0]] + merge_cells(a, b.drop_first())
    } else {
        seq![a[0]] + merge_cells(a.drop_first(), b)
    }
}

/// The cells sorted by their position in the xy plane, by merging the sorted
/// halves; cells at the same position keep their order.
pub open spec fn sorted_cells(s: Seq<Cell3D>) -> Seq<Cell3D>
    decreases s.len(),
{
    if s.len() <= 1 {
        s
    } else {
        merge_cells(
            sorted_cells(s.take((s.len() / 2) as int)),
            sorted_cells(s.skip((s.len() / 2) as int)),
        )
    }
}

/// The cells are in order of their position in the xy plane.
pub open spec fn cells_in_order(s: Seq<Cell3D>) -> bool {
    forall|i: int, j: int| 0 <= i < j < s.len() ==> s[i].xy_cell_index <= s[j].xy_cell_index
}

/// No cell comes before position `lo`.
pub open spec fn cells_from(s: Seq<Cell3D>, lo: int) -> bool {
    forall|i: int| 0 <= i < s.len() ==> lo <= #[trigger] s[i].xy_cell_index
}

proof fn lemma_merge_cells(a: Seq<Cell3D>, b: Seq<Cell3D>, lo: int)
    ensures
        merge_cells(a, b).len() == a.len() + b.len(),
        merge_cells(a, b).to_multiset() == a.to_multiset().add(b.to_multiset()),
        cells_from(a, lo) && cells_from(b, lo) ==> cells_from(merge_cells(a, b), lo),
        cells_in_order(a) && cells_in_order(b) ==> cells_in_order(merge_cells(a, b)),
    decreases a.len() + b.len(),
{
    broadcast use vstd::seq_lib::lemma_multiset_commutative;
    broadcast use vstd::multiset::group_multiset_axioms;

    if a.len() == 0 {
        vstd::seq_lib::to_multiset_len(a);
        vstd::multiset::lemma_multiset_empty_len(a.to_multiset());
        assert(a.to_multiset() =~= vstd::multiset::Multiset::empty());
        assert(b.to_multiset().add(vstd::multiset::Multiset::empty()) =~= b.to_multiset());
        assert(a.to_multiset().add(b.to_multiset()) =~= b.to_multiset());
    } else if b.len() == 0 {
        vstd::seq_lib::to_multiset_len(b);
        vstd::multiset::lemma_multiset_empty_len(b.to_multiset());
        assert(b.to_multiset() =~= vstd::multiset::Multiset::empty());
        assert(a.to_multiset().add(b.to_multiset()) =~= a.to_multiset());
    } else if b[0].xy_cell_index < a[0].xy_cell_index {
        let t = b.drop_first();
        lemma_merge_cells(a, t, lo);
        lemma_merge_cells(a, t, b[0].xy_cell_index as int);
        assert(b =~= seq![b[0]] + t);
        let m = merge_cells(a, t);
        if cells_in_order(a) && cells_in_order(b) {
            assert(cells_from(t, b[0].xy_cell_index as int)) by {
                assert forall|i: int| 0 <= i < t.len() implies b[0].xy_cell_index <= #[trigger] t[i].xy_cell_index by {
                    assert(t[i] == b[i + 1]);
                }
            }
            assert(cells_from(a, b[0].xy_cell_index as int)) by {
                assert forall|i: int| 0 <= i < a.len() implies b[0].xy_cell_index <= #[trigger] a[i].xy_cell_index by {
                    assert(a[0].xy_cell_index <= a[i].xy_cell_index || i == 0);
                }
            }
            assert(cells_in_order(t)) by {
                assert forall|i: int, j: int| 0 <= i < j < t.len() implies t[i].xy_cell_index <= t[j].xy_cell_index by {
                    assert(t[i] == b[i + 1] && t[j] == b[j + 1]);
                }
            }
            let r = seq![b[0]] + m;
            assert forall|i: int, j: int| 0 <= i < j < r.len() implies r[i].xy_cell_index <= r[j].xy_cell_index by {
                if i == 0 {
                    assert(r[j] == m[j - 1]);
                } else {
                    assert(r[i] == m[i - 1] && r[j] == m[j - 1]);
                }
            }
        }
        if cells_from(a, lo) && cells_from(b, lo) {
            assert(cells_from(t, lo)) by {
                assert forall|i: int| 0 <= i < t.len() implies lo <= #[trigger] t[i].xy_cell_index by {
                    assert(t[i] == b[i + 1]);
                }
            }
            let r = seq![b[0]] + m;
            assert forall|i: int| 0 <= i < r.len() implies lo <= #[trigger] r[i].xy_cell_index by {
                if i > 0 {
                    assert(r[i] == m[i - 1]);
                }
            }
        }
        assert((seq![b[0]] + m).to_multiset() =~= seq![b[0]].to_multiset().add(m.to_multiset()));
        assert((seq![b[0]] + t).to_multiset() =~= seq![b[0]].to_multiset().add(t.to_multiset()));
    } else {
        let t = a.drop_first();
        lemma_merge_cells(t, b, lo);
        lemma_merge_cells(t, b, a[0].xy_cell_index as int);
        assert(a =~= seq![a[0]] + t);
        let m = merge_cells(t, b);
        if cells_in_order(a) && cells_in_order(b) {
            assert(cells_from(t, a[0].xy_cell_index as int)) by {
                assert forall|i: int| 0 <= i < t.len() implies a[0].xy_cell_index <= #[trigger] t[i].xy_cell_index by {
                    assert(t[i] == a[i + 1]);
                }
            }
            assert(cells_from(b, a[0].xy_cell_index as int)) by {
                assert forall|i: int| 0 <= i < b.len() implies a[0].xy_cell_index <= #[trigger] b[i].xy_cell_index by {
                    assert(b[0].xy_cell_index <= b[i].xy_cell_index || i == 0);
                }
            }
            assert(cells_in_order(t)) by {
                assert forall|i: int, j: int| 0 <= i < j < t.len() implies t[i].xy_cell_index <= t[j].xy_cell_index by {
                    assert(t[i] == a[i + 1] && t[j] == a[j + 1]);
                }
            }
            let r = seq![a[0]] + m;
            assert forall|i: int, j: int| 0 <= i < j < r.len() implies r[i].xy_cell_index <= r[j].xy_cell_index by {
                if i == 0 {
                    assert(r[j] == m[j - 1]);
                } else {
                    assert(r[i] == m[i - 1] && r[j] == m[j - 1]);
                }
            }
        }
        if cells_from(a, lo) && cells_from(b, lo) {
            assert(cells_from(t, lo)) by {
                assert forall|i: int| 0 <= i < t.len() implies lo <= #[trigger] t[i].xy_cell_index by {
                    assert(t[i] == a[i + 1]);
                }
            }
            let r = seq![a[0]] + m;
            assert forall|i: int| 0 <= i < r.len() implies lo <= #[trigger] r[i].xy_cell_index by {
                if i > 0 {
                    assert(r[i] == m[i - 1]);
                }
            }
        }
        assert((seq![a[0]] + m).to_multiset() =~= seq![a[0]].to_multiset().add(m.to_multiset()));
        assert((seq![a[0]] + t).to_multiset() =~= seq![a[0]].to_multiset().add(t.to_multiset()));
    }
}

/// Sorting keeps every cell and puts them in order.
pub proof fn lemma_sorted_cells(s: Seq<Cell3D>)
    ensures
        sorted_cells(s).len() == s.len(),
        sorted_cells(s).to_multiset() == s.to_multiset(),
        cells_in_order(sorted_cells(s)),
    decreases s.len(),
{
    broadcast use vstd::seq_lib::lemma_multiset_commutative;

    if s.len() > 1 {
        let m = (s.len() / 2) as int;
        lemma_sorted_cells(s.take(m));
        lemma_sorted_cells(s.skip(m));
        lemma_merge_cells(sorted_cells(s.take(m)), sorted_cells(s.skip(m)), 0);
        assert(s =~= s.take(m) + s.skip(m));
    }
}

/// Merges two sorted runs of cells.
fn merge_runs(a: &Vec<Cell3D>, b: &Vec<Cell3D>) -> (m: Vec<Cell3D>)
    ensures
        m@ == merge_cells(a@, b@),
{
    let mut out: Vec<Cell3D> = Vec::new();
    let mut i: usize = 0;
    let mut j: usize = 0;
    proof {
        assert(a@.skip(0) =~= a@);
        assert(b@.skip(0) =~= b@);
        assert(out@ + merge_cells(a@, b@) =~= merge_cells(a@, b@));
    }
    while i < a.len() || j < b.len()
        invariant
            i <= a@.len(),
            j <= b@.len(),
            out@ + merge_cells(a@.skip(i as int), b@.skip(j as int)) == merge_cells(a@, b@),
        decreases a@.len() + b@.len() - i - j,
    {
        let ghost sa = a@.skip(i as int);
        let ghost sb = b@.skip(j as int);
        if i < a.len() && (j >= b.len() || !(b[j].xy_cell_index < a[i].xy_cell_index)) {
            proof {
                assert(sa[0] == a@[i as int]);
                assert(sa.drop_first() =~= a@.skip(i + 1));
                if sb.len() == 0 {
                    assert(sa =~= seq![sa[0]] + sa.drop_first());
                    assert(merge_cells(sa.drop_first(), sb) == sa.drop_first());
                } else {
                    assert(sb[0] == b@[j as int]);
                }
            }
            out.push(a[i]);
            i = i + 1;
            proof {
                assert(out@ + merge_cells(a@.skip(i as int), b@.skip(j as int)) =~= merge_cells(a@, b@));
            }
        } else {
            proof {
                assert(sb[0] == b@[j as int]);
                assert(sb.drop_first() =~= b@.skip(j + 1));
                if sa.len() == 0 {
                    assert(sb =~= seq![sb[0]] + sb.drop_first());
                    assert(merge_cells(sa, sb.drop_first()) == sb.drop_first());
                } else {
                    assert(sa[0] == a@[i as int]);
                }
            }
            out.push(b[j]);
            j = j + 1;
            proof {
                assert(out@ + merge_cells(a@.skip(i as int), b@.skip(j as int)) =~= merge_cells(a@, b@));
            }
        }
    }
    proof {
        assert(a@.skip(i as int) =~= Seq::<Cell3D>::empty());
        assert(b@.skip(j as int) =~= Seq::<Cell3D>::empty());
        assert(out@ + Seq::<Cell3D>::empty() =~= out@);
    }
    out
}

/// Sorts cells by their position in the xy plane; cells at the same position
/// keep their order.
fn sort_cells(cells: &[Cell3D]) -> (s: Vec<Cell3D>)
    ensures
        s@ == sorted_cells(cells@),
    decreases cells@.len(),
{
    let n = cells.len();
    if n <= 1 {
        return vstd::slice::slice_to_vec(cells);
    }
    let m = n / 2;
    let left = sort_cells(vstd::slice::slice_subrange(cells, 0, m));
    let right = sort_cells(vstd::slice::slice_subrange(cells, m, n));
    proof {
        assert(cells@.subrange(0, m as int) =~= cells@.take(m as int));
        assert(cells@.subrange(m as int, n as int) =~= cells@.skip(m as int));
    }
    merge_runs(&left, &right)
}


/// Every cell lies in the nonnegative octant.
pub open spec fn cells_nonneg(s: Seq<Cell3D>) -> bool {
    forall|k: int| 0 <= k < s.len() ==> 0 <= (#[trigger] s[k]).x && 0 <= s[k].y && 0 <= s[k].z
}

/// Sorting moves cells but makes none.
pub proof fn lemma_sorted_nonneg(s: Seq<Cell3D>)
    requires
        cells_nonneg(s),
    ensures
        cells_nonneg(sorted_cells(s)),
{
    broadcast use vstd::seq_lib::to_multiset_contains;

    lemma_sorted_cells(s);
    let t = sorted_cells(s);
    assert forall|k: int| 0 <= k < t.len() implies 0 <= (#[trigger] t[k]).x && 0 <= t[k].y && 0 <= t[k].z by {
        assert(t.contains(t[k]));
        assert(t.to_multiset().count(t[k]) > 0);
        assert(s.contains(t[k]));
        let j = choose|j: int| 0 <= j < s.len() && s[j] == t[k];
        assert(0 <= s[j].x && 0 <= s[j].y && 0 <= s[j].z);
    }
}

// --- the delta model --------------------------------------------------------
/// A row starts at cell `k`.
pub open spec fn row_start(s: Seq<Cell3D>, k: int) -> bool {
    k == 0 || s[k].y != s[k - 1].y
}

/// The occupied rows: the row of each run of cells in the same row, and the
/// run's length.
pub open spec fn cell_rows(s: Seq<Cell3D>) -> Seq<(i32, nat)>
    decreases s.len(),
{
    if s.len() == 0 {
        Seq::empty()
    } else {
        let p = cell_rows(s.drop_last());
        if p.len() > 0 && p.last().0 == s.last().y {
            p.update(p.len() - 1, (s.last().y, p.last().1 + 1))
        } else {
            p.push((s.last().y, 1nat))
        }
    }
}

/// The row of the last of `rows` (0 when there is none).
pub open spec fn last_row(rows: Seq<(i32, nat)>) -> int {
    if rows.len() == 0 {
        0
    } else {
        rows.last().0 as int
    }
}

/// Each row's distance from the previous occupied row (the first from row 0).
pub open spec fn row_deltas(rows: Seq<(i32, nat)>) -> Seq<u32> {
    Seq::new(rows.len(), |r: int| (rows[r].0 - last_row(rows.take(r))) as u32)
}

/// Each row's number of cells.
pub open spec fn row_lengths(rows: Seq<(i32, nat)>) -> Seq<u32> {
    Seq::new(rows.len(), |r: int| rows[r].1 as u32)
}

/// Each cell's distance from the previous cell's column in its row (the first
/// of a row from column 0).
pub open spec fn column_deltas(s: Seq<Cell3D>) -> Seq<u32> {
    Seq::new(
        s.len(),
        |k: int|
            (s[k].x - if row_start(s, k) {
                0
            } else {
                s[k - 1].x
            }) as u32,
    )
}

/// Each cell's height.
pub open spec fn heights(s: Seq<Cell3D>) -> Seq<u32> {
    Seq::new(s.len(), |k: int| s[k].z as u32)
}

/// The rows of a prefix, one cell longer.
proof fn lemma_rows_step(s: Seq<Cell3D>, k: int)
    requires
        0 <= k < s.len(),
    ensures
        cell_rows(s.take(k + 1)) == if k > 0 && s[k].y == s[k - 1].y {
            cell_rows(s.take(k)).update(
                cell_rows(s.take(k)).len() - 1,
                (s[k].y, cell_rows(s.take(k)).last().1 + 1),
            )
        } else {
            cell_rows(s.take(k)).push((s[k].y, 1nat))
        },
        k > 0 ==> cell_rows(s.take(k)).len() > 0 && cell_rows(s.take(k)).last().0 == s[k - 1].y,
    decreases k,
{
    assert(s.take(k + 1).drop_last() =~= s.take(k));
    if k > 0 {
        lemma_rows_step(s, k - 1);
    }
}

pub struct LepccGridEncoder {
    cell_3d_vec: Vec<Cell3D>,
    y_delta_vec: Vec<u32>,
    num_points_per_row_vec: Vec<u32>,
    x_delta_vec: Vec<u32>,
    z_vec: Vec<u32>,
}

impl LepccGridEncoder {
    /// The quantized cells.
    pub closed spec fn cells(self) -> Seq<Cell3D> {
        self.cell_3d_vec@
    }

    /// Distance of each occupied row from the previous one.
    pub closed spec fn y_deltas(self) -> Seq<u32> {
        self.y_delta_vec@
    }

    /// Number of cells of each occupied row.
    pub closed spec fn points_per_row(self) -> Seq<u32> {
        self.num_points_per_row_vec@
    }

    /// Distance of each cell from the previous cell's column.
    pub closed spec fn x_deltas(self) -> Seq<u32> {
        self.x_delta_vec@
    }

    /// Height of each cell.
    pub closed spec fn z_values(self) -> Seq<u32> {
        self.z_vec@
    }

    /// The delta model of the cells has been built.
    pub open spec fn has_model(self) -> bool {
        let s = self.cells();
        &&& self.y_deltas() == row_deltas(cell_rows(s))
        &&& self.points_per_row() == row_lengths(cell_rows(s))
        &&& self.x_deltas() == column_deltas(s)
        &&& self.z_values() == heights(s)
    }

    pub fn new() -> (e: Self)
        ensures
            e.cells() == Seq::<Cell3D>::empty(),
            e.has_model(),
    {
        let e = LepccGridEncoder {
            cell_3d_vec: Vec::new(),
            y_delta_vec: Vec::new(),
            num_points_per_row_vec: Vec::new(),
            x_delta_vec: Vec::new(),
            z_vec: Vec::new(),
        };
        proof {
            assert(row_deltas(cell_rows(e.cells())) =~= Seq::<u32>::empty());
            assert(row_lengths(cell_rows(e.cells())) =~= Seq::<u32>::empty());
            assert(column_deltas(e.cells()) =~= Seq::<u32>::empty());
            assert(heights(e.cells()) =~= Seq::<u32>::empty());
        }
        e
    }

    /// Takes the quantized cells, in the order of their points.
    pub fn set_cells(&mut self, cells: Vec<Cell3D>)
        ensures
            final(self).cells() == cells@,
    {
        self.cell_3d_vec = cells;
    }

    /// Sorts the cells by their position in the xy plane and builds the delta
    /// model: the rows, their lengths, the column steps and the heights.
    pub fn convert_to_delta_model(&mut self) -> (r: Result<(), LepccError>)
        requires
            cells_nonneg(old(self).cells()),
            old(self).cells().len() <= u32::MAX,
        ensures
            old(self).cells().len() == 0 ==> (r matches Err(e) && is_failed(e, "No points to convert"@)
                && *final(self) == *old(self)),
            old(self).cells().len() > 0 ==> (r is Ok && final(self).cells() == sorted_cells(
                old(self).cells(),
            ) && final(self).has_model()),
    {
        if self.cell_3d_vec.len() == 0 {
            return Err(failed("No points to convert"));
        }
        let num_points = self.cell_3d_vec.len();
        let sorted = sort_cells(self.cell_3d_vec.as_slice());
        proof {
            lemma_sorted_cells(old(self).cells());
            lemma_sorted_nonneg(old(self).cells());
        }
        self.cell_3d_vec = sorted;
        let (y_delta_vec, num_points_per_row_vec, x_delta_vec, z_vec) = delta_model(&self.cell_3d_vec);
        self.y_delta_vec = y_delta_vec;
        self.num_points_per_row_vec = num_points_per_row_vec;
        self.x_delta_vec = x_delta_vec;
        self.z_vec = z_vec;
        Ok(())
    }
}


/// The rows before the last one (none when there are none).
pub open spec fn finished_rows(rows: Seq<(i32, nat)>) -> Seq<(i32, nat)> {
    if rows.len() == 0 {
        rows
    } else {
        rows.drop_last()
    }
}

/// The deltas and lengths of rows, one row longer.
proof fn lemma_row_push(rows: Seq<(i32, nat)>)
    requires
        rows.len() > 0,
    ensures
        row_deltas(rows) == row_deltas(finished_rows(rows)).push(
            (rows.last().0 - last_row(finished_rows(rows))) as u32,
        ),
        row_lengths(rows) == row_lengths(finished_rows(rows)).push(rows.last().1 as u32),
{
    let f = rows.drop_last();
    assert forall|r: int| 0 <= r < f.len() implies rows.take(r) =~= f.take(r) by {}
    assert(rows.take(f.len() as int) =~= f);
    assert(row_deltas(rows) =~= row_deltas(f).push((rows.last().0 - last_row(f)) as u32));
    assert(row_lengths(rows) =~= row_lengths(f).push(rows.last().1 as u32));
}

/// The four sequences of the delta model of sorted cells.
fn delta_model(cells: &Vec<Cell3D>) -> (r: (Vec<u32>, Vec<u32>, Vec<u32>, Vec<u32>))
    requires
        cells@.len() > 0,
        cells@.len() <= u32::MAX,
        cells_nonneg(cells@),
    ensures
        r.0@ == row_deltas(cell_rows(cells@)),
        r.1@ == row_lengths(cell_rows(cells@)),
        r.2@ == column_deltas(cells@),
        r.3@ == heights(cells@),
{
    let num_points = cells.len();
    let mut y_delta_vec: Vec<u32> = Vec::new();
    let mut num_points_per_row_vec: Vec<u32> = Vec::new();
    let mut x_delta_vec: Vec<u32> = Vec::new();
    let mut z_vec: Vec<u32> = Vec::new();
    let mut n_pts_per_row: u32 = 0;
    let mut prev_row: i32 = 0;
    let mut y_curr: i32 = cells[0].y;
    let mut prev_col: i32 = 0;
    let ghost s = cells@;
    let mut k: usize = 0;
    proof {
        assert(s.take(0) =~= Seq::<Cell3D>::empty());
        assert(row_deltas(Seq::<(i32, nat)>::empty()) =~= Seq::<u32>::empty());
        assert(row_lengths(Seq::<(i32, nat)>::empty()) =~= Seq::<u32>::empty());
        assert(column_deltas(s.take(0)) =~= Seq::<u32>::empty());
        assert(heights(s.take(0)) =~= Seq::<u32>::empty());
    }
    while k < num_points
        invariant
            s == cells@,
            num_points == s.len(),
            num_points <= u32::MAX,
            cells_nonneg(s),
            k <= num_points,
            k == 0 ==> cell_rows(s.take(k as int)).len() == 0 && y_curr == s[0].y && n_pts_per_row == 0,
            k > 0 ==> cell_rows(s.take(k as int)).len() > 0 && y_curr == cell_rows(s.take(k as int)).last().0
                && n_pts_per_row == cell_rows(s.take(k as int)).last().1 && prev_col == s[k - 1].x
                && y_curr == s[k - 1].y,
            n_pts_per_row <= k,
            0 <= y_curr,
            0 <= prev_row,
            0 <= prev_col,
            prev_row == last_row(finished_rows(cell_rows(s.take(k as int)))),
            y_delta_vec@ == row_deltas(finished_rows(cell_rows(s.take(k as int)))),
            num_points_per_row_vec@ == row_lengths(finished_rows(cell_rows(s.take(k as int)))),
            x_delta_vec@ == column_deltas(s.take(k as int)),
            z_vec@ == heights(s.take(k as int)),
        decreases num_points - k,
    {
        let c = cells[k];
        let ghost rows = cell_rows(s.take(k as int));
        let ghost rows2 = cell_rows(s.take(k + 1));
        proof {
            lemma_rows_step(s, k as int);
            assert(0 <= c.x && 0 <= c.y && 0 <= c.z);
        }
        let new_row = k == 0 || c.y != y_curr;
        if c.y == y_curr {
            n_pts_per_row = n_pts_per_row + 1;
            proof {
                if k == 0 {
                    assert(rows2 =~= seq![(c.y, 1nat)]);
                    assert(finished_rows(rows2) =~= Seq::<(i32, nat)>::empty());
                } else {
                    assert(finished_rows(rows2) =~= finished_rows(rows));
                }
            }
        } else {
            proof {
                assert(rows2 == rows.push((c.y, 1nat)));
                assert(finished_rows(rows2) =~= rows);
                lemma_row_push(rows);
            }
            y_delta_vec.push((y_curr - prev_row) as u32);
            num_points_per_row_vec.push(n_pts_per_row);
            n_pts_per_row = 1;
            prev_row = y_curr;
            y_curr = c.y;
        }
        if new_row {
            prev_col = 0;
        }
        x_delta_vec.push((c.x - prev_col) as u32);
        prev_col = c.x;
        z_vec.push(c.z as u32);
        k = k + 1;
        proof {
            assert(x_delta_vec@ =~= column_deltas(s.take(k as int)));
            assert(z_vec@ =~= heights(s.take(k as int)));
        }
    }
    proof {
        assert(s.take(num_points as int) =~= s);
        lemma_row_push(cell_rows(s));
    }
    y_delta_vec.push((y_curr - prev_row) as u32);
    num_points_per_row_vec.push(n_pts_per_row);
    (y_delta_vec, num_points_per_row_vec, x_delta_vec, z_vec)
}


// --- sections -----------------------------------------------------------------
/// Number of sections of `n` values.
pub open spec fn sections_for(n: nat) -> nat {
    (n + 127) / 128
}

/// Section `i` of `d`: 128 values, fewer in the last section.
pub open spec fn section(d: Seq<u32>, i: int) -> Seq<u32> {
    let lo = 128 * i;
    d.subrange(lo, if lo + 128 < d.len() { lo + 128 } else { d.len() as int })
}

/// The smallest element (0 for no elements).
pub open spec fn seq_min(s: Seq<u32>) -> u32
    decreases s.len(),
{
    if s.len() == 0 {
        0
    } else if s.len() == 1 {
        s[0]
    } else if s.last() < seq_min(s.drop_last()) {
        s.last()
    } else {
        seq_min(s.drop_last())
    }
}

/// The smallest value of every section.
pub open spec fn section_mins(d: Seq<u32>) -> Seq<u32> {
    Seq::new(sections_for(d.len()), |i: int| seq_min(section(d, i)))
}

/// Section `i` less its smallest value.
pub open spec fn zero_based(d: Seq<u32>, i: int) -> Seq<u32> {
    let sec = section(d, i);
    Seq::new(sec.len(), |j: int| (sec[j] - seq_min(sec)) as u32)
}

/// Bytes of the first `k` sections.
pub open spec fn sections_size(d: Seq<u32>, k: nat) -> int
    decreases k,
{
    if k == 0 {
        0
    } else {
        let sec = section(d, k - 1);
        sections_size(d, (k - 1) as nat) + simple_encoded_len(
            sec.len() as u32,
            (seq_max(sec) - seq_min(sec)) as u32,
        )
    }
}

/// Bytes of the sections of `d` and of their minimums.
pub open spec fn cut_size(d: Seq<u32>) -> int {
    sections_size(d, sections_for(d.len())) + simple_encoded_len(
        sections_for(d.len()) as u32,
        seq_max(section_mins(d)),
    )
}

/// The encodings of the first `k` sections, each less its smallest value.
pub open spec fn sections_encoding(d: Seq<u32>, k: nat) -> Seq<u8>
    decreases k,
{
    if k == 0 {
        Seq::empty()
    } else {
        sections_encoding(d, (k - 1) as nat) + simple_encoding(zero_based(d, k - 1))
    }
}

/// Every section and the minimums can be bit stuffed.
pub open spec fn cut_encodable(d: Seq<u32>) -> bool {
    &&& simple_encodable(section_mins(d))
    &&& forall|i: int| 0 <= i < sections_for(d.len()) ==> simple_encodable(#[trigger] zero_based(d, i))
}

/// The encoding of `d` cut in sections: the minimums, then every section.
pub open spec fn cut_encoding(d: Seq<u32>) -> Seq<u8> {
    simple_encoding(section_mins(d)) + sections_encoding(d, sections_for(d.len()))
}

/// The smallest and the largest value of `data[start..end]`.
fn min_max(data: &[u32], start: usize, end: usize) -> (r: (u32, u32))
    requires
        start < end <= data@.len(),
    ensures
        r.0 == seq_min(data@.subrange(start as int, end as int)),
        r.1 == seq_max(data@.subrange(start as int, end as int)),
        r.0 <= r.1,
{
    let mut mn = data[start];
    let mut mx = data[start];
    let mut j: usize = start + 1;
    proof {
        let t = data@.subrange(start as int, j as int);
        assert(t.len() == 1 && t[0] == data@[start as int]);
        assert(t.drop_last() =~= Seq::<u32>::empty());
        assert(seq_max(t.drop_last()) == 0);
    }
    while j < end
        invariant
            start < j <= end,
            end <= data@.len(),
            mn == seq_min(data@.subrange(start as int, j as int)),
            mx == seq_max(data@.subrange(start as int, j as int)),
            mn <= mx,
        decreases end - j,
    {
        let v = data[j];
        proof {
            let t = data@.subrange(start as int, j + 1);
            assert(t.drop_last() =~= data@.subrange(start as int, j as int));
            assert(t.last() == v);
        }
        if v < mn {
            mn = v;
        }
        if v > mx {
            mx = v;
        }
        j = j + 1;
    }
    (mn, mx)
}

/// The largest element.
fn max_of(data: &Vec<u32>) -> (m: u32)
    ensures
        m == seq_max(data@),
{
    let mut m: u32 = 0;
    let mut i: usize = 0;
    while i < data.len()
        invariant
            i <= data@.len(),
            m == seq_max(data@.take(i as int)),
        decreases data@.len() - i,
    {
        proof {
            assert(data@.take(i + 1).drop_last() =~= data@.take(i as int));
        }
        if data[i] > m {
            m = data[i];
        }
        i = i + 1;
    }
    proof {
        assert(data@.take(data@.len() as int) =~= data@);
    }
    m
}

/// The smallest element is no larger than any element.
proof fn lemma_seq_min_le(s: Seq<u32>)
    ensures
        forall|j: int| 0 <= j < s.len() ==> seq_min(s) <= #[trigger] s[j],
    decreases s.len(),
{
    if s.len() > 1 {
        lemma_seq_min_le(s.drop_last());
        assert forall|j: int| 0 <= j < s.len() implies seq_min(s) <= #[trigger] s[j] by {
            if j < s.len() - 1 {
                assert(s[j] == s.drop_last()[j]);
            }
        }
    }
}

/// Number of sections of `n` values, and the length of the last one.
fn section_count(n: usize) -> (r: (usize, usize))
    ensures
        r.0 == sections_for(n as nat),
        n > 0 ==> r.1 == n - (r.0 - 1) * 128 && 0 < r.1 <= 128,
{
    let ns = n / 128 + if n % 128 > 0 {
        1
    } else {
        0
    };
    if n == 0 {
        return (0, 0);
    }
    (ns, n - (ns - 1) * 128)
}

/// Section `i` of `n` values starts within them.
proof fn lemma_section_bounds(n: nat, i: nat)
    requires
        i < sections_for(n),
    ensures
        128 * i < n,
        sections_for(n) > 0,
        i < sections_for(n) - 1 ==> 128 * i + 128 < n,
        i == sections_for(n) - 1 ==> n - 128 * i <= 128,
        sections_for(n) * 128 <= n + 127,
{
    assert(128 * i < n && sections_for(n) * 128 <= n + 127) by (nonlinear_arith)
        requires
            i < (n + 127) / 128,
    ;
    assert(i < sections_for(n) - 1 ==> 128 * i + 128 < n) by (nonlinear_arith)
        requires
            i < (n + 127) / 128,
    ;
    assert(i == sections_for(n) - 1 ==> n - 128 * i <= 128) by (nonlinear_arith)
        requires
            i < (n + 127) / 128,
    ;
}

/// `simple_encoded_len` is at most five bytes more than four per element.
proof fn lemma_encoded_len_bound(count: u32, max_elem: u32)
    ensures
        simple_encoded_len(count, max_elem) <= 6 + 4 * count,
{
    crate::bit_stuffer2::lemma_bit_width_shift(max_elem);
    let w = bit_width(max_elem as nat);
    assert((count * w + 7) / 8 <= 1 + 4 * count) by (nonlinear_arith)
        requires
            w <= 32,
    ;
}

/// Number of bytes that `encode_cut_in_segments` writes for `data`.
pub fn compute_num_bytes_cut_in_segments(data: &[u32]) -> (n: i64)
    requires
        data@.len() > 0,
        data@.len() <= u32::MAX,
    ensures
        n == cut_size(data@),
{
    let (num_sections, len_last_section) = section_count(data.len());
    let mut section_min_vec: Vec<u32> = Vec::new();
    let mut n_bytes: i64 = 0;
    let mut i: usize = 0;
    while i < num_sections
        invariant
            num_sections == sections_for(data@.len()),
            data@.len() > 0,
            data@.len() <= u32::MAX,
            len_last_section == data@.len() - (num_sections - 1) * 128,
            0 < len_last_section <= 128,
            i <= num_sections,
            section_min_vec@ == section_mins(data@).take(i as int),
            n_bytes == sections_size(data@, i as nat),
            0 <= n_bytes <= 520 * i,
        decreases num_sections - i,
    {
        let len = if i < num_sections - 1 {
            SECTION_SIZE
        } else {
            len_last_section
        };
        proof {
            lemma_section_bounds(data@.len(), i as nat);
        }
        let start = i * SECTION_SIZE;
        let end = start + len;
        proof {
            assert(end <= data@.len());
            assert(section(data@, i as int) == data@.subrange(start as int, end as int));
        }
        let (min_elem, max_elem) = min_max(data, start, end);
        section_min_vec.push(min_elem);
        let range = max_elem - min_elem;
        proof {
            lemma_encoded_len_bound(len as u32, range);
            assert(section_min_vec@ =~= section_mins(data@).take(i + 1));
        }
        n_bytes = n_bytes + BitStuffer2::compute_num_bytes_needed_simple(len as u32, range) as i64;
        i = i + 1;
    }
    proof {
        assert(section_min_vec@ =~= section_mins(data@));
        lemma_encoded_len_bound(num_sections as u32, seq_max(section_mins(data@)));
    }
    let max_of_section_mins = max_of(&section_min_vec);
    n_bytes + BitStuffer2::compute_num_bytes_needed_simple(num_sections as u32, max_of_section_mins) as i64
}

/// Writes `data` cut in sections: the bit-stuffed section minimums, then every
/// section less its minimum.
pub fn encode_cut_in_segments(buffer: &mut Vec<u8>, data: &[u32]) -> (r: Result<(), LepccError>)
    requires
        data@.len() <= u32::MAX,
    ensures
        r is Ok <==> cut_encodable(data@),
        r is Ok ==> final(buffer)@ == old(buffer)@ + cut_encoding(data@),
        r matches Err(e) ==> is_failed(e, "Too many bits needed for bit stuffing"@),
{
    let (num_sections, _len_last) = section_count(data.len());
    let mut section_min_vec: Vec<u32> = Vec::new();
    let mut i: usize = 0;
    while i < num_sections
        invariant
            num_sections == sections_for(data@.len()),
            data@.len() <= u32::MAX,
            i <= num_sections,
            section_min_vec@ == section_mins(data@).take(i as int),
        decreases num_sections - i,
    {
        proof {
            lemma_section_bounds(data@.len(), i as nat);
        }
        let start = i * SECTION_SIZE;
        let end = if data.len() - start > SECTION_SIZE {
            start + SECTION_SIZE
        } else {
            data.len()
        };
        let (min_elem, _max_elem) = min_max(data, start, end);
        section_min_vec.push(min_elem);
        i = i + 1;
        proof {
            assert(section_min_vec@ =~= section_mins(data@).take(i as int));
        }
    }
    proof {
        assert(section_min_vec@ =~= section_mins(data@));
    }
    let encoded_mins = match BitStuffer2::encode_simple(section_min_vec.as_slice()) {
        Ok(v) => v,
        Err(e) => {
            return Err(e);
        },
    };
    append_bytes(buffer, &encoded_mins);
    let ghost head = buffer@;
    let mut i: usize = 0;
    while i < num_sections
        invariant
            num_sections == sections_for(data@.len()),
            data@.len() <= u32::MAX,
            i <= num_sections,
            section_min_vec@ == section_mins(data@),
            simple_encodable(section_mins(data@)),
            head == old(buffer)@ + simple_encoding(section_mins(data@)),
            buffer@ == head + sections_encoding(data@, i as nat),
            forall|k: int| 0 <= k < i ==> simple_encodable(#[trigger] zero_based(data@, k)),
        decreases num_sections - i,
    {
        proof {
            lemma_section_bounds(data@.len(), i as nat);
        }
        let start = i * SECTION_SIZE;
        let end = if data.len() - start > SECTION_SIZE {
            start + SECTION_SIZE
        } else {
            data.len()
        };
        let min_elem = section_min_vec[i];
        let mut zero_based_data: Vec<u32> = Vec::new();
        let mut j: usize = start;
        proof {
            let sec = section(data@, i as int);
            assert(sec == data@.subrange(start as int, end as int));
            lemma_seq_min_le(sec);
            assert forall|t: int| start <= t < end implies min_elem <= #[trigger] data@[t] by {
                assert(data@[t] == sec[t - start]);
            }
        }
        while j < end
            invariant
                start <= j <= end,
                end <= data@.len(),
                section(data@, i as int) == data@.subrange(start as int, end as int),
                min_elem == seq_min(section(data@, i as int)),
                forall|t: int| start <= t < end ==> min_elem <= #[trigger] data@[t],
                zero_based_data@ == zero_based(data@, i as int).take(j - start),
            decreases end - j,
        {
            zero_based_data.push(data[j] - min_elem);
            j = j + 1;
            proof {
                assert(zero_based_data@ =~= zero_based(data@, i as int).take(j - start));
            }
        }
        proof {
            assert(zero_based_data@ =~= zero_based(data@, i as int));
        }
        let encoded = match BitStuffer2::encode_simple(zero_based_data.as_slice()) {
            Ok(v) => v,
            Err(e) => {
                return Err(e);
            },
        };
        append_bytes(buffer, &encoded);
        i = i + 1;
        proof {
            assert(buffer@ =~= head + sections_encoding(data@, i as nat));
        }
    }
    Ok(())
}

/// Appends `bytes`.
fn append_bytes(buffer: &mut Vec<u8>, bytes: &Vec<u8>)
    ensures
        final(buffer)@ == old(buffer)@ + bytes@,
{
    let ghost start = buffer@;
    let mut i: usize = 0;
    while i < bytes.len()
        invariant
            i <= bytes@.len(),
            buffer@ == start + bytes@.take(i as int),
        decreases bytes@.len() - i,
    {
        buffer.push(bytes[i]);
        i = i + 1;
        proof {
            assert(buffer@ =~= start + bytes@.take(i as int));
        }
    }
    proof {
        assert(bytes@.take(bytes@.len() as int) =~= bytes@);
    }
}


// --- the blob -----------------------------------------------------------------
/// Size of the headers of a point blob.
pub const XYZ_HEADER_SIZE: usize = 104;

/// Bytes of the extent and the largest errors in the header.
pub const XYZ_GEOMETRY_SIZE: usize = 72;

/// The file key of point blobs: `LEPCC` and five spaces in ASCII.
pub open spec fn lepcc_key() -> Seq<u8> {
    seq![0x4Cu8, 0x45, 0x50, 0x43, 0x43, 0x20, 0x20, 0x20, 0x20, 0x20]
}

fn file_key() -> (k: [u8; 10])
    ensures
        k@ == lepcc_key(),
{
    let k: [u8; 10] = [0x4Cu8, 0x45, 0x50, 0x43, 0x43, 0x20, 0x20, 0x20, 0x20, 0x20];
    assert(k@ =~= lepcc_key());
    k
}

/// Bytes a point blob takes for sorted cells `s`.
pub open spec fn xyz_num_bytes(s: Seq<Cell3D>) -> int {
    let rows = cell_rows(s);
    104 + cut_size(row_deltas(rows)) + cut_size(row_lengths(rows)) + cut_size(column_deltas(s))
        + cut_size(heights(s))
}

/// The four sequences of the delta model of sorted cells can be bit stuffed.
pub open spec fn xyz_encodable(s: Seq<Cell3D>) -> bool {
    let rows = cell_rows(s);
    &&& cut_encodable(row_deltas(rows))
    &&& cut_encodable(row_lengths(rows))
    &&& cut_encodable(column_deltas(s))
    &&& cut_encodable(heights(s))
}

/// The point blob of sorted cells `s` under the header bytes `geometry`.
pub open spec fn xyz_blob(geometry: Seq<u8>, s: Seq<Cell3D>) -> Seq<u8> {
    let rows = cell_rows(s);
    seal(
        lepcc_key(),
        geometry + le_bytes(s.len() as u32 as nat, 4) + le_bytes(0, 4) + cut_encoding(row_deltas(rows))
            + cut_encoding(row_lengths(rows)) + cut_encoding(column_deltas(s)) + cut_encoding(
            heights(s),
        ),
    )
}

proof fn lemma_rows_len(s: Seq<Cell3D>)
    ensures
        cell_rows(s).len() <= s.len(),
        s.len() > 0 ==> cell_rows(s).len() > 0,
    decreases s.len(),
{
    if s.len() > 0 {
        lemma_rows_len(s.drop_last());
    }
}

impl LepccGridEncoder {
    /// Takes the quantized cells, builds their delta model and returns the
    /// number of bytes of the blob.
    pub fn compute_num_bytes_needed(&mut self, cells: Vec<Cell3D>) -> (r: Result<i64, LepccError>)
        requires
            cells_nonneg(cells@),
            cells@.len() <= u32::MAX,
        ensures
            cells@.len() == 0 ==> (r matches Err(e) && is_failed(e, "No points to convert"@)),
            cells@.len() > 0 ==> (r matches Ok(n) && n == xyz_num_bytes(sorted_cells(cells@))
                && final(self).cells() == sorted_cells(cells@) && final(self).has_model()),
    {
        self.set_cells(cells);
        self.convert_to_delta_model()?;
        proof {
            lemma_sorted_cells(cells@);
            lemma_rows_len(self.cells());
            lemma_cut_size_bound(self.y_deltas());
            lemma_cut_size_bound(self.points_per_row());
            lemma_cut_size_bound(self.x_deltas());
            lemma_cut_size_bound(self.z_values());
        }
        let mut n_bytes: i64 = XYZ_HEADER_SIZE as i64;
        n_bytes = n_bytes + compute_num_bytes_cut_in_segments(self.y_delta_vec.as_slice());
        n_bytes = n_bytes + compute_num_bytes_cut_in_segments(self.num_points_per_row_vec.as_slice());
        n_bytes = n_bytes + compute_num_bytes_cut_in_segments(self.x_delta_vec.as_slice());
        n_bytes = n_bytes + compute_num_bytes_cut_in_segments(self.z_vec.as_slice());
        Ok(n_bytes)
    }

    /// The point blob: the header with `geometry` (the extent and the largest
    /// errors, 72 bytes), then the four sequences cut in sections.
    pub fn encode(&self, geometry: &[u8]) -> (r: Result<Vec<u8>, LepccError>)
        requires
            geometry@.len() == XYZ_GEOMETRY_SIZE,
            self.has_model(),
            self.cells().len() <= u32::MAX,
        ensures
            r is Ok <==> xyz_encodable(self.cells()),
            r matches Ok(v) ==> v@ == xyz_blob(geometry@, self.cells()),
            r matches Err(e) ==> is_failed(e, "Too many bits needed for bit stuffing"@),
    {
        proof {
            lemma_rows_len(self.cells());
        }
        let mut rest: Vec<u8> = Vec::new();
        let mut i: usize = 0;
        while i < geometry.len()
            invariant
                i <= geometry@.len(),
                rest@ == geometry@.take(i as int),
            decreases geometry@.len() - i,
        {
            rest.push(geometry[i]);
            i = i + 1;
            proof {
                assert(rest@ =~= geometry@.take(i as int));
            }
        }
        proof {
            assert(geometry@.take(geometry@.len() as int) =~= geometry@);
        }
        push_u32(&mut rest, self.z_vec.len() as u32);
        push_u32(&mut rest, 0);
        encode_cut_in_segments(&mut rest, self.y_delta_vec.as_slice())?;
        encode_cut_in_segments(&mut rest, self.num_points_per_row_vec.as_slice())?;
        encode_cut_in_segments(&mut rest, self.x_delta_vec.as_slice())?;
        encode_cut_in_segments(&mut rest, self.z_vec.as_slice())?;
        proof {
            lemma_cut_encoding_bound(self.y_deltas());
            lemma_cut_encoding_bound(self.points_per_row());
            lemma_cut_encoding_bound(self.x_deltas());
            lemma_cut_encoding_bound(self.z_values());
            crate::bit_stuffer2::lemma_le_bytes_len(self.cells().len() as u32 as nat, 4);
            crate::bit_stuffer2::lemma_le_bytes_len(0, 4);
        }
        let key = file_key();
        Ok(seal_blob(&key, rest.as_slice()))
    }
}

/// Less a lower bound `m`, the largest value is the largest less `m`.
proof fn lemma_max_less(sec: Seq<u32>, m: u32)
    requires
        forall|j: int| 0 <= j < sec.len() ==> m <= #[trigger] sec[j],
    ensures
        seq_max(Seq::new(sec.len(), |j: int| (sec[j] - m) as u32)) == if sec.len() == 0 {
            0
        } else {
            (seq_max(sec) - m) as u32
        },
    decreases sec.len(),
{
    if sec.len() > 0 {
        let t = sec.drop_last();
        lemma_max_less(t, m);
        let z = Seq::new(sec.len(), |j: int| (sec[j] - m) as u32);
        assert(z.drop_last() =~= Seq::new(t.len(), |j: int| (t[j] - m) as u32));
        assert(m <= sec.last());
        assert(z.last() == sec.last() - m);
        if t.len() > 0 {
            crate::bit_stuffer2::lemma_seq_max_bound(t, 0);
            assert(m <= t[0]);
            assert(seq_max(z.drop_last()) == seq_max(t) - m);
        } else {
            assert(seq_max(z.drop_last()) == 0);
            assert(seq_max(t) == 0);
        }
    }
}

/// The encodings of the first `k` sections take the bytes counted for them.
proof fn lemma_sections_size_is_length(d: Seq<u32>, k: nat)
    requires
        k <= sections_for(d.len()),
        d.len() <= u32::MAX,
    ensures
        sections_size(d, k) == sections_encoding(d, k).len(),
    decreases k,
{
    if k > 0 {
        let i = k - 1;
        lemma_sections_size_is_length(d, (k - 1) as nat);
        lemma_section_bounds(d.len(), (k - 1) as nat);
        let sec = section(d, i);
        lemma_seq_min_le(sec);
        lemma_max_less(sec, seq_min(sec));
        assert(zero_based(d, i) == Seq::new(sec.len(), |j: int| (sec[j] - seq_min(sec)) as u32));
        crate::bit_stuffer2::lemma_simple_encoding_len(zero_based(d, i));
    }
}

/// A non-empty sequence cut in sections takes the bytes `cut_size` counts.
pub proof fn lemma_cut_size_is_length(d: Seq<u32>)
    requires
        0 < d.len() <= u32::MAX,
    ensures
        cut_size(d) == cut_encoding(d).len(),
{
    let ns = sections_for(d.len());
    lemma_section_bounds(d.len(), 0);
    assert(ns <= d.len()) by (nonlinear_arith)
        requires
            ns == (d.len() + 127) / 128,
            d.len() > 0,
    ;
    lemma_sections_size_is_length(d, ns);
    crate::bit_stuffer2::lemma_simple_encoding_len(section_mins(d));
}

/// Values below 2^31 can be bit stuffed.
proof fn lemma_small_encodable(v: Seq<u32>)
    requires
        forall|i: int| 0 <= i < v.len() ==> #[trigger] v[i] <= 0x7FFF_FFFF,
    ensures
        simple_encodable(v),
{
    crate::bit_stuffer2::lemma_seq_max_le(v, 0x7FFF_FFFF);
    crate::bit_math::lemma_u32_shifts(seq_max(v), 0);
    crate::bit_stuffer2::lemma_width_below(seq_max(v), 31);
}

/// Values below 2^31 cut in sections can be bit stuffed.
pub proof fn lemma_cut_encodable(d: Seq<u32>)
    requires
        forall|i: int| 0 <= i < d.len() ==> #[trigger] d[i] <= 0x7FFF_FFFF,
    ensures
        cut_encodable(d),
{
    let mins = section_mins(d);
    assert forall|i: int| 0 <= i < mins.len() implies #[trigger] mins[i] <= 0x7FFF_FFFF by {
        lemma_section_bounds(d.len(), i as nat);
        let sec = section(d, i);
        lemma_seq_min_le(sec);
        assert(sec[0] == d[128 * i]);
    }
    lemma_small_encodable(mins);
    assert forall|i: int| 0 <= i < sections_for(d.len()) implies simple_encodable(
        #[trigger] zero_based(d, i),
    ) by {
        lemma_section_bounds(d.len(), i as nat);
        let sec = section(d, i);
        let z = zero_based(d, i);
        lemma_seq_min_le(sec);
        assert forall|j: int| 0 <= j < z.len() implies #[trigger] z[j] <= 0x7FFF_FFFF by {
            assert(sec[j] == d[128 * i + j]);
        }
        lemma_small_encodable(z);
    }
}

/// The size of a sequence cut in sections is at most 10 bytes per value, and 10 more.
proof fn lemma_cut_size_bound(d: Seq<u32>)
    requires
        d.len() <= u32::MAX,
    ensures
        0 <= cut_size(d) <= 10 * d.len() + 10,
{
    let ns = sections_for(d.len());
    assert(ns <= d.len() + 1) by (nonlinear_arith)
        requires
            ns == (d.len() + 127) / 128,
    ;
    lemma_encoded_len_bound(ns as u32, seq_max(section_mins(d)));
    lemma_sections_size_bound(d, ns);
}

/// The first `k` sections take at most 6 bytes more than 4 per value.
proof fn lemma_sections_size_bound(d: Seq<u32>, k: nat)
    requires
        k <= sections_for(d.len()),
        d.len() <= u32::MAX,
    ensures
        0 <= sections_size(d, k) <= 6 * k + 4 * (if 128 * k < d.len() { 128 * k as int } else { d.len() as int }),
    decreases k,
{
    if k > 0 {
        lemma_sections_size_bound(d, (k - 1) as nat);
        lemma_section_bounds(d.len(), (k - 1) as nat);
        let sec = section(d, k - 1);
        lemma_encoded_len_bound(sec.len() as u32, (seq_max(sec) - seq_min(sec)) as u32);
    }
}

/// A sequence cut in sections takes at most 10 bytes per value, and 10 more.
proof fn lemma_cut_encoding_bound(d: Seq<u32>)
    requires
        cut_encodable(d),
        d.len() <= u32::MAX,
    ensures
        cut_encoding(d).len() <= 10 * d.len() + 10,
{
    let ns = sections_for(d.len());
    assert(ns <= d.len() + 1) by (nonlinear_arith)
        requires
            ns == (d.len() + 127) / 128,
    ;
    crate::bit_stuffer2::lemma_simple_encoding_bound(section_mins(d));
    lemma_sections_encoding_bound(d, ns);
}

/// The first `k` sections take at most 5 bytes more than 4 per value.
proof fn lemma_sections_encoding_bound(d: Seq<u32>, k: nat)
    requires
        k <= sections_for(d.len()),
        d.len() <= u32::MAX,
    ensures
        sections_encoding(d, k).len() <= 5 * k + 5 * (if 128 * k < d.len() { 128 * k as int } else { d.len() as int }),
    decreases k,
{
    if k > 0 {
        lemma_sections_encoding_bound(d, (k - 1) as nat);
        lemma_section_bounds(d.len(), (k - 1) as nat);
        crate::bit_stuffer2::lemma_simple_encoding_bound(zero_based(d, k - 1));
    }
}


// --- decoding -------------------------------------------------------------------
/// The values of a section with its minimum added back.
pub open spec fn add_min(sec: Seq<u32>, m: u32) -> Seq<u32> {
    Seq::new(sec.len(), |j: int| (sec[j] + m) as u32)
}

/// Adding the minimum back keeps every value of a section within 32 bits.
pub open spec fn fits_with(sec: Seq<u32>, m: u32) -> bool {
    forall|j: int| 0 <= j < sec.len() ==> #[trigger] sec[j] + m <= u32::MAX
}

/// The values of the first `k` sections after the minimums `mins` at the start
/// of `d`, and the position after them; `None` when a section is missing or
/// cannot be decoded.
pub open spec fn cut_walk(d: Seq<u8>, mins: Seq<u32>, k: nat) -> Option<(Seq<u32>, nat)>
    decreases k,
{
    if k == 0 {
        Some((Seq::empty(), block_len(d)))
    } else {
        match cut_walk(d, mins, (k - 1) as nat) {
            None => None,
            Some(prev) => if prev.1 >= d.len() {
                None
            } else {
                match simple_decoding(d.skip(prev.1 as int)) {
                    None => None,
                    Some(sec) => Some(
                        (prev.0 + add_min(sec, mins[k - 1]), prev.1 + block_len(d.skip(prev.1 as int))),
                    ),
                }
            },
        }
    }
}

/// One of the first `k` sections has a value that does not fit 32 bits once its
/// minimum is added back.
pub open spec fn cut_walk_overflows(d: Seq<u8>, mins: Seq<u32>, k: nat) -> bool
    decreases k,
{
    if k == 0 {
        false
    } else {
        cut_walk_overflows(d, mins, (k - 1) as nat) || match cut_walk(d, mins, (k - 1) as nat) {
            Some(prev) => prev.1 < d.len() && match simple_decoding(d.skip(prev.1 as int)) {
                Some(sec) => !fits_with(sec, mins[k - 1]),
                None => false,
            },
            None => false,
        }
    }
}

/// The error of the first of the first `k` sections that is missing or cannot
/// be decoded.
pub open spec fn cut_walk_error(d: Seq<u8>, mins: Seq<u32>, k: nat, e: LepccError) -> bool
    decreases k,
{
    k > 0 && match cut_walk(d, mins, (k - 1) as nat) {
        None => cut_walk_error(d, mins, (k - 1) as nat, e),
        Some(prev) => if prev.1 >= d.len() {
            is_too_small(e, prev.1 + 1int, d.len() as int)
        } else {
            simple_decoding_error(d.skip(prev.1 as int), e)
        },
    }
}

/// The values of a sequence cut in sections at the start of `d`, and the number
/// of bytes they take.
pub open spec fn cut_decoding(d: Seq<u8>) -> Option<(Seq<u32>, nat)> {
    if d.len() == 0 {
        Some((Seq::empty(), 0))
    } else {
        match simple_decoding(d) {
            None => None,
            Some(mins) => cut_walk(d, mins, mins.len()),
        }
    }
}

/// Decoding the sequence at the start of `d` adds a minimum to a value that it
/// pushes beyond 32 bits.
pub open spec fn cut_overflows(d: Seq<u8>) -> bool {
    d.len() > 0 && match simple_decoding(d) {
        None => false,
        Some(mins) => cut_walk_overflows(d, mins, mins.len()),
    }
}

/// The error reported when the sequence at the start of `d` cannot be decoded.
pub open spec fn cut_decoding_error(d: Seq<u8>, e: LepccError) -> bool {
    d.len() > 0 && match simple_decoding(d) {
        None => simple_decoding_error(d, e),
        Some(mins) => cut_walk_error(d, mins, mins.len(), e),
    }
}

/// Once the walk fails it stays failed, with the same error and overflow.
proof fn lemma_walk_stays_failed(d: Seq<u8>, mins: Seq<u32>, k: nat, k2: nat, e: LepccError)
    requires
        cut_walk(d, mins, k) is None,
        k <= k2,
    ensures
        cut_walk(d, mins, k2) is None,
        cut_walk_overflows(d, mins, k2) == cut_walk_overflows(d, mins, k),
        cut_walk_error(d, mins, k2, e) == cut_walk_error(d, mins, k, e),
    decreases k2 - k,
{
    if k < k2 {
        lemma_walk_stays_failed(d, mins, k, (k2 - 1) as nat, e);
    }
}

/// An overflow stays an overflow.
proof fn lemma_overflow_stays(d: Seq<u8>, mins: Seq<u32>, k: nat, k2: nat)
    requires
        cut_walk_overflows(d, mins, k),
        k <= k2,
    ensures
        cut_walk_overflows(d, mins, k2),
    decreases k2 - k,
{
    if k < k2 {
        lemma_overflow_stays(d, mins, k, (k2 - 1) as nat);
    }
}

/// Where the first `k` sections of `n` values end.
pub open spec fn sections_end(n: nat, k: nat) -> nat {
    if 128 * k < n {
        128 * k
    } else {
        n
    }
}

/// The encodings of the first `k` sections begin those of the first `k2`.
proof fn lemma_sections_prefix(d: Seq<u32>, k: nat, k2: nat)
    requires
        k <= k2,
    ensures
        sections_encoding(d, k).len() <= sections_encoding(d, k2).len(),
        sections_encoding(d, k2).subrange(0, sections_encoding(d, k).len() as int) == sections_encoding(
            d,
            k,
        ),
    decreases k2,
{
    if k2 > k {
        let j = (k2 - 1) as nat;
        lemma_sections_prefix(d, k, j);
        let n = sections_encoding(d, k).len() as int;
        assert(sections_encoding(d, k2).subrange(0, n) =~= sections_encoding(d, j).subrange(0, n));
    }
}

/// Section `i` less its smallest value, with that value added back, is the section.
proof fn lemma_add_min_back(d: Seq<u32>, i: int)
    ensures
        add_min(zero_based(d, i), seq_min(section(d, i))) == section(d, i),
        fits_with(zero_based(d, i), seq_min(section(d, i))),
{
    let sec = section(d, i);
    lemma_seq_min_le(sec);
    assert(add_min(zero_based(d, i), seq_min(sec)) =~= sec);
}

/// Section `j` is read back from where the encodings of the sections before it end.
proof fn lemma_section_read(d: Seq<u32>, tail: Seq<u8>, j: nat)
    requires
        0 < d.len() <= u32::MAX,
        cut_encodable(d),
        j < sections_for(d.len()),
    ensures
        ({
            let e = cut_encoding(d) + tail;
            let p = simple_encoding(section_mins(d)).len() + sections_encoding(d, j).len();
            &&& p < e.len()
            &&& simple_decoding(e.skip(p as int)) == Some(zero_based(d, j as int))
            &&& block_len(e.skip(p as int)) == simple_encoding(zero_based(d, j as int)).len()
            &&& sections_encoding(d, j + 1).len() == sections_encoding(d, j).len() + simple_encoding(
                zero_based(d, j as int),
            ).len()
        }),
{
    let mins = section_mins(d);
    let big = sections_for(d.len());
    let all = sections_encoding(d, big);
    let e = cut_encoding(d) + tail;
    let head = simple_encoding(mins);
    let k = j + 1;
    lemma_section_bounds(d.len(), j);
    lemma_sections_prefix(d, k, big);
    let zb = zero_based(d, j as int);
    let sj = sections_encoding(d, j);
    let sk = sections_encoding(d, k);
    let p = head.len() + sj.len();
    assert(sk == sj + simple_encoding(zb));
    assert(zb.len() > 0);
    assert(simple_encodable(zb));
    let rest = all.skip(sk.len() as int) + tail;
    assert(all =~= sk + all.skip(sk.len() as int));
    assert(e.skip(p as int) =~= simple_encoding(zb) + rest);
    crate::bit_stuffer2::lemma_simple_roundtrip(zb, rest);
}

/// Walking the first `k` sections of an encoding of `d` reads them back, ends
/// where their encodings end, and adds no minimum that overflows.
#[verifier::rlimit(30)]
proof fn lemma_walk_encoding(d: Seq<u32>, tail: Seq<u8>, k: nat)
    requires
        0 < d.len() <= u32::MAX,
        cut_encodable(d),
        k <= sections_for(d.len()),
    ensures
        cut_walk(cut_encoding(d) + tail, section_mins(d), k) == Some(
            (
                d.take(sections_end(d.len(), k) as int),
                simple_encoding(section_mins(d)).len() + sections_encoding(d, k).len(),
            ),
        ),
        !cut_walk_overflows(cut_encoding(d) + tail, section_mins(d), k),
    decreases k,
{
    let mins = section_mins(d);
    let e = cut_encoding(d) + tail;
    if k == 0 {
        let big = sections_for(d.len());
        let all = sections_encoding(d, big);
        assert(e =~= simple_encoding(mins) + (all + tail));
        crate::bit_stuffer2::lemma_simple_roundtrip(mins, all + tail);
        assert(d.take(0) =~= Seq::<u32>::empty());
    } else {
        let j = (k - 1) as nat;
        lemma_walk_encoding(d, tail, j);
        lemma_section_read(d, tail, j);
        lemma_section_bounds(d.len(), j);
        lemma_add_min_back(d, j as int);
        assert(mins[j as int] == seq_min(section(d, j as int)));
        assert(d.take(sections_end(d.len(), j) as int) + section(d, j as int) =~= d.take(
            sections_end(d.len(), k) as int,
        ));
    }
}

/// Decoding what `encode_cut_in_segments` writes for non-empty values, whatever
/// follows it, gives back the values and the number of bytes written, and adds
/// no minimum that overflows.
pub proof fn lemma_cut_roundtrip(d: Seq<u32>, tail: Seq<u8>)
    requires
        0 < d.len() <= u32::MAX,
        cut_encodable(d),
    ensures
        cut_decoding(cut_encoding(d) + tail) == Some((d, cut_encoding(d).len())),
        !cut_overflows(cut_encoding(d) + tail),
{
    let mins = section_mins(d);
    let big = sections_for(d.len());
    let all = sections_encoding(d, big);
    let e = cut_encoding(d) + tail;
    lemma_section_bounds(d.len(), 0);
    assert(e =~= simple_encoding(mins) + (all + tail));
    crate::bit_stuffer2::lemma_simple_roundtrip(mins, all + tail);
    lemma_walk_encoding(d, tail, big);
    lemma_section_bounds(d.len(), (big - 1) as nat);
    assert(d.take(sections_end(d.len(), big) as int) =~= d);
}

/// Number of bytes of the bit-stuffed block at the start of `data`.
fn block_size(data: &[u8]) -> (n: usize)
    requires
        simple_decoding(data@) is Some,
    ensures
        n == block_len(data@),
        n <= data@.len(),
{
    let header = data[0];
    let code = header >> 6u8;
    let width = (header & 0x1Fu8) as u64;
    let cs: usize = if code == 2 {
        1
    } else if code == 1 {
        2
    } else {
        4
    };
    let count: u64 = if cs == 1 {
        proof {
            reveal_with_fuel(crate::bit_math::le_value, 2);
        }
        data[1] as u64
    } else if cs == 2 {
        read_u16(data, 1) as u64
    } else {
        read_u32(data, 1) as u64
    };
    assert(header & 0x1Fu8 <= 31) by (bit_vector);
    assert(count * width <= 0xFFFF_FFFF * 31) by (nonlinear_arith)
        requires
            count <= 0xFFFF_FFFF,
            width <= 31,
    ;
    let data_size = (count * width + 7) / 8;
    proof {
        assert(block_count_size(data@) == cs);
        assert(block_count(data@) == count);
        assert(block_width(data@) == width);
        if width > 0 {
            assert(block_payload(data@).len() == data@.len() - 1 - cs);
        } else {
            assert(count * width == 0) by (nonlinear_arith)
                requires
                    width == 0,
            ;
            assert(data_size == 0);
        }
    }
    1 + cs + data_size as usize
}

pub struct LepccDecoder {
    section_size: i32,
    decode_size: usize,
}

impl LepccDecoder {
    /// Number of bytes taken by the last sequence decoded.
    pub closed spec fn decoded_size(self) -> nat {
        self.decode_size as nat
    }

    pub fn new() -> (d: Self)
        ensures
            d.decoded_size() == 0,
    {
        LepccDecoder { section_size: SECTION_SIZE as i32, decode_size: 0 }
    }

    /// Number of bytes taken by the last sequence decoded.
    pub fn get_decode_size(&self) -> (n: usize)
        ensures
            n == self.decoded_size(),
    {
        self.decode_size
    }

    /// The blob size recorded in the header of a point blob.
    pub fn get_blob_size(data: &[u8]) -> (r: Result<u32, LepccError>)
        ensures
            match r {
                Ok(n) => blob_size_result(data@, lepcc_key()) == Some(n as nat),
                Err(e) => blob_size_result(data@, lepcc_key()) is None && blob_size_error(
                    data@,
                    lepcc_key(),
                    e,
                ),
            },
    {
        let key = file_key();
        get_blob_size(data, &key)
    }

    /// The number of points recorded in the header.
    pub fn get_num_points(data: &[u8]) -> (r: Result<u32, LepccError>)
        ensures
            match r {
                Ok(n) => data@.len() >= 104 && n == le_value(data@, 96, 4),
                Err(e) => data@.len() < 104 && is_too_small(e, 104, data@.len() as int),
            },
    {
        if data.len() < XYZ_HEADER_SIZE {
            return Err(LepccError::BufferTooSmall { needed: XYZ_HEADER_SIZE, provided: data.len() });
        }
        Ok(read_u32(data, 96))
    }

    /// Decodes a sequence cut in sections at the start of `data` and records
    /// the number of bytes it takes. `None` where adding a section minimum back
    /// overflows 32 bits.
    fn decode_cut_in_segments(&mut self, data: &[u8]) -> (r: Option<Result<Vec<u32>, LepccError>>)
        requires
            data@.len() < usize::MAX,
        ensures
            r is None <==> cut_overflows(data@),
            r matches Some(Ok(v)) ==> cut_decoding(data@) == Some((v@, final(self).decoded_size())),
            r matches Some(Err(e)) ==> cut_decoding(data@) is None && cut_decoding_error(data@, e),
            final(self).decoded_size() <= data@.len(),
    {
        self.decode_size = 0;
        if data.len() == 0 {
            return Some(Ok(Vec::new()));
        }
        let section_min_vec = match BitStuffer2::decode(data) {
            Ok(v) => v,
            Err(e) => {
                return Some(Err(e));
            },
        };
        let ghost d = data@;
        let ghost mins = section_min_vec@;
        let mut pos = block_size(data);
        let num_sections = section_min_vec.len();
        let mut result: Vec<u32> = Vec::new();
        let mut i: usize = 0;
        while i < num_sections
            invariant
                d == data@,
                d.len() > 0,
                d.len() < usize::MAX,
                simple_decoding(d) == Some(mins),
                mins == section_min_vec@,
                num_sections == mins.len(),
                i <= num_sections,
                pos <= d.len(),
                self.decode_size == 0,
                cut_walk(d, mins, i as nat) == Some((result@, pos as nat)),
                !cut_walk_overflows(d, mins, i as nat),
            decreases num_sections - i,
        {
            if pos >= data.len() {
                let e = LepccError::BufferTooSmall { needed: pos + 1, provided: data.len() };
                proof {
                    assert(cut_walk(d, mins, (i + 1) as nat) is None);
                    assert(cut_walk_error(d, mins, (i + 1) as nat, e));
                    lemma_walk_stays_failed(d, mins, (i + 1) as nat, mins.len(), e);
                }
                return Some(Err(e));
            }
            let sub = vstd::slice::slice_subrange(data, pos, data.len());
            proof {
                assert(sub@ =~= d.skip(pos as int));
            }
            let section_data = match BitStuffer2::decode(sub) {
                Ok(v) => v,
                Err(e) => {
                    proof {
                        assert(cut_walk(d, mins, (i + 1) as nat) is None);
                        assert(cut_walk_error(d, mins, (i + 1) as nat, e));
                        lemma_walk_stays_failed(d, mins, (i + 1) as nat, mins.len(), e);
                    }
                    return Some(Err(e));
                },
            };
            let min_elem = section_min_vec[i];
            let sz = block_size(sub);
            let ghost before = result@;
            let mut j: usize = 0;
            while j < section_data.len()
                invariant
                    d == data@,
                    d.len() > 0,
                    simple_decoding(d) == Some(mins),
                    self.decode_size == 0,
                    i < num_sections,
                    num_sections == mins.len(),
                    mins == section_min_vec@,
                    min_elem == mins[i as int],
                    pos < d.len(),
                    simple_decoding(d.skip(pos as int)) == Some(section_data@),
                    cut_walk(d, mins, i as nat) == Some((before, pos as nat)),
                    !cut_walk_overflows(d, mins, i as nat),
                    j <= section_data@.len(),
                    result@ == before + add_min(section_data@, min_elem).take(j as int),
                    forall|t: int| 0 <= t < j ==> #[trigger] section_data@[t] + min_elem <= u32::MAX,
                decreases section_data@.len() - j,
            {
                let v = section_data[j];
                if v > u32::MAX - min_elem {
                    proof {
                        assert(!fits_with(section_data@, min_elem));
                        assert(cut_walk_overflows(d, mins, (i + 1) as nat));
                        lemma_overflow_stays(d, mins, (i + 1) as nat, mins.len());
                    }
                    return None;
                }
                result.push(v + min_elem);
                j = j + 1;
                proof {
                    assert(result@ =~= before + add_min(section_data@, min_elem).take(j as int));
                }
            }
            proof {
                assert(add_min(section_data@, min_elem).take(j as int) =~= add_min(section_data@, min_elem));
                assert(fits_with(section_data@, min_elem));
            }
            pos = pos + sz;
            i = i + 1;
        }
        self.decode_size = pos;
        Some(Ok(result))
    }
}


// --- the grid -------------------------------------------------------------------
/// A decoded point: its cell in the grid.
pub type GridPoint = (i32, i32, i32);

/// The value fits a 32-bit signed integer.
pub open spec fn fits_i32(v: int) -> bool {
    i32::MIN <= v <= i32::MAX
}

/// The points of the first `k` steps through a row of `n` points whose first
/// point is number `start`: the points, the last column, and the number of the
/// next point. `None` where a column overflows 32 bits.
pub open spec fn grid_row(xd: Seq<u32>, z: Seq<u32>, start: nat, iy: i32, k: nat) -> Option<(Seq<GridPoint>, int, nat)>
    decreases k,
{
    if k == 0 {
        Some((Seq::empty(), 0, start))
    } else {
        match grid_row(xd, z, start, iy, (k - 1) as nat) {
            None => None,
            Some(prev) => if prev.2 >= xd.len() || prev.2 >= z.len() {
                Some(prev)
            } else {
                let ix = prev.1 + (xd[prev.2 as int] as i32);
                if !fits_i32(ix) {
                    None
                } else {
                    Some((prev.0.push((ix as i32, iy, z[prev.2 as int] as i32)), ix, prev.2 + 1))
                }
            },
        }
    }
}

/// The points of the first `r` rows: the points, the row, and the number of the
/// next point. `None` where a row count is missing or a row or column
/// overflows 32 bits.
pub open spec fn grid_rows(yd: Seq<u32>, npr: Seq<u32>, xd: Seq<u32>, z: Seq<u32>, r: nat) -> Option<
    (Seq<GridPoint>, int, nat),
>
    decreases r,
{
    if r == 0 {
        Some((Seq::empty(), 0, 0))
    } else {
        match grid_rows(yd, npr, xd, z, (r - 1) as nat) {
            None => None,
            Some(prev) => if r - 1 >= npr.len() {
                None
            } else {
                let iy = prev.1 + (yd[r - 1] as i32);
                if !fits_i32(iy) {
                    None
                } else {
                    match grid_row(xd, z, prev.2, iy as i32, npr[r - 1] as nat) {
                        None => None,
                        Some(row) => Some((prev.0 + row.0, iy, row.2)),
                    }
                }
            },
        }
    }
}

/// The points of the grid decoded from the four sequences; `None` where the
/// decoding overflows or misses a row count.
pub open spec fn grid_points(yd: Seq<u32>, npr: Seq<u32>, xd: Seq<u32>, z: Seq<u32>) -> Option<Seq<GridPoint>> {
    match grid_rows(yd, npr, xd, z, yd.len()) {
        None => None,
        Some(g) => Some(g.0),
    }
}

/// The four sequences that follow the headers of a point blob, each with the
/// position after it.
pub open spec fn xyz_parts(d: Seq<u8>) -> Seq<Option<(Seq<u32>, nat)>> {
    let p0 = cut_decoding(d.skip(104));
    let o1: int = 104 + p0.unwrap().1 as int;
    let p1 = cut_decoding(d.skip(o1));
    let o2: int = o1 + p1.unwrap().1;
    let p2 = cut_decoding(d.skip(o2));
    let o3: int = o2 + p2.unwrap().1;
    let p3 = cut_decoding(d.skip(o3));
    seq![p0, p1, p2, p3]
}

/// Where the sequence `i` of a point blob starts.
pub open spec fn xyz_part_start(d: Seq<u8>, i: int) -> int
    decreases i,
{
    if i <= 0 {
        104
    } else {
        xyz_part_start(d, i - 1) + xyz_parts(d)[i - 1].unwrap().1
    }
}

/// The frame of a point blob passes the checks of the decoder.
pub open spec fn xyz_frame_ok(d: Seq<u8>) -> bool {
    match blob_size_result(d, lepcc_key()) {
        None => false,
        Some(n) => d.len() >= n && d.len() >= 104,
    }
}

/// The first `i` sequences decode.
pub open spec fn xyz_parts_ok(d: Seq<u8>, i: int) -> bool {
    forall|j: int| 0 <= j < i ==> (#[trigger] xyz_parts(d)[j]) is Some && !cut_overflows(d.skip(xyz_part_start(d, j)))
}

/// The grid points of a point blob, or `None` when decoding fails.
pub open spec fn xyz_grid(d: Seq<u8>) -> Option<Seq<GridPoint>> {
    if xyz_frame_ok(d) && xyz_parts_ok(d, 4) {
        let p = xyz_parts(d);
        grid_points(p[0].unwrap().0, p[1].unwrap().0, p[2].unwrap().0, p[3].unwrap().0)
    } else {
        None
    }
}

/// Decoding the grid of a point blob overflows or misses a row count.
pub open spec fn xyz_grid_panics(d: Seq<u8>) -> bool {
    xyz_frame_ok(d) && ((exists|j: int|
        0 <= j < 4 && xyz_parts_ok(d, j) && #[trigger] cut_overflows(d.skip(xyz_part_start(d, j))))
        || (xyz_parts_ok(d, 4) && ({
        let p = xyz_parts(d);
        grid_points(p[0].unwrap().0, p[1].unwrap().0, p[2].unwrap().0, p[3].unwrap().0) is None
    })))
}

/// The error reported when the grid of a point blob cannot be decoded.
pub open spec fn xyz_grid_error(d: Seq<u8>, e: LepccError) -> bool {
    match blob_size_result(d, lepcc_key()) {
        None => blob_size_error(d, lepcc_key(), e),
        Some(n) => if d.len() < n {
            is_too_small(e, n as int, d.len() as int)
        } else if d.len() < 104 {
            is_too_small(e, 104, d.len() as int)
        } else {
            exists|j: int|
                0 <= j < 4 && xyz_parts_ok(d, j) && (#[trigger] xyz_parts(d)[j]) is None
                    && cut_decoding_error(d.skip(xyz_part_start(d, j)), e)
        },
    }
}

impl LepccDecoder {
    /// Decodes the four sequences of a point blob and rebuilds the grid cell of
    /// every point. A blob whose coordinates overflow 32 bits or that misses a
    /// row count is refused as invalid point data.
    pub fn decode_grid(data: &[u8]) -> (r: Result<Vec<GridPoint>, LepccError>)
        requires
            data@.len() < usize::MAX,
        ensures
            match r {
                Ok(v) => !xyz_grid_panics(data@) && xyz_grid(data@) == Some(v@),
                Err(e) => if xyz_grid_panics(data@) {
                    is_failed(e, "Invalid point data"@)
                } else {
                    xyz_grid(data@) is None && xyz_grid_error(data@, e)
                },
            },
    {
        match Self::decode_grid_parts(data) {
            None => Err(failed("Invalid point data")),
            Some(r) => r,
        }
    }

    /// Decodes the four sequences of a point blob and rebuilds the grid cell of
    /// every point. `None` where decoding overflows 32 bits or a row count is
    /// missing.
    fn decode_grid_parts(data: &[u8]) -> (r: Option<Result<Vec<GridPoint>, LepccError>>)
        requires
            data@.len() < usize::MAX,
        ensures
            r is None <==> xyz_grid_panics(data@),
            r matches Some(Ok(v)) ==> xyz_grid(data@) == Some(v@),
            r matches Some(Err(e)) ==> xyz_grid(data@) is None && xyz_grid_error(data@, e),
    {
        let blob_size = match Self::get_blob_size(data) {
            Ok(n) => n as usize,
            Err(e) => {
                return Some(Err(e));
            },
        };
        if data.len() < blob_size {
            return Some(Err(LepccError::BufferTooSmall { needed: blob_size, provided: data.len() }));
        }
        if data.len() < XYZ_HEADER_SIZE {
            return Some(Err(LepccError::BufferTooSmall { needed: XYZ_HEADER_SIZE, provided: data.len() }));
        }
        let ghost d = data@;
        let mut decoder = Self::new();
        let mut parts: Vec<Vec<u32>> = Vec::new();
        let mut offset: usize = XYZ_HEADER_SIZE;
        let mut i: usize = 0;
        while i < 4
            invariant
                d == data@,
                d.len() < usize::MAX,
                xyz_frame_ok(d),
                i <= 4,
                parts@.len() == i,
                offset <= d.len(),
                offset == xyz_part_start(d, i as int),
                xyz_parts_ok(d, i as int),
                forall|j: int| 0 <= j < i ==> (#[trigger] parts@[j])@ == xyz_parts(d)[j].unwrap().0,
            decreases 4 - i,
        {
            let sub = vstd::slice::slice_subrange(data, offset, data.len());
            proof {
                assert(sub@ =~= d.skip(offset as int));
                lemma_part_start(d, i as int);
            }
            let part = match decoder.decode_cut_in_segments(sub) {
                None => {
                    proof {
                        assert(cut_overflows(d.skip(xyz_part_start(d, i as int))));
                    }
                    return None;
                },
                Some(Err(e)) => {
                    proof {
                        assert(xyz_parts(d)[i as int] is None);
                        assert(!xyz_parts_ok(d, 4)) by {
                            assert(!(xyz_parts(d)[i as int] is Some));
                        }
                        assert(!xyz_grid_panics(d)) by {
                            assert forall|j: int| 0 <= j < 4 && xyz_parts_ok(d, j) implies !#[trigger] cut_overflows(d.skip(xyz_part_start(d, j))) by {
                                if j > i {
                                    assert(xyz_parts(d)[i as int] is Some);
                                }
                                if j == i {
                                }
                            }
                        }
                    }
                    return Some(Err(e));
                },
                Some(Ok(v)) => v,
            };
            proof {
                assert(xyz_parts(d)[i as int] == Some((part@, decoder.decoded_size())));
            }
            offset = offset + decoder.get_decode_size();
            parts.push(part);
            i = i + 1;
            proof {
                assert(xyz_parts_ok(d, i as int)) by {
                    assert forall|j: int| 0 <= j < i implies (#[trigger] xyz_parts(d)[j]) is Some && !cut_overflows(d.skip(xyz_part_start(d, j))) by {
                        if j < i - 1 {
                            assert(xyz_parts_ok(d, i - 1));
                        }
                    }
                }
            }
        }
        let y_delta_vec = &parts[0];
        let num_points_per_row_vec = &parts[1];
        let x_delta_vec = &parts[2];
        let z_vec = &parts[3];
        let points = rebuild_grid(y_delta_vec, num_points_per_row_vec, x_delta_vec, z_vec);
        match points {
            None => None,
            Some(v) => Some(Ok(v)),
        }
    }
}

proof fn lemma_part_start(d: Seq<u8>, i: int)
    requires
        0 <= i < 4,
    ensures
        xyz_part_start(d, i) == if i == 0 {
            104
        } else if i == 1 {
            104 + xyz_parts(d)[0].unwrap().1
        } else if i == 2 {
            104 + xyz_parts(d)[0].unwrap().1 + xyz_parts(d)[1].unwrap().1
        } else {
            104 + xyz_parts(d)[0].unwrap().1 + xyz_parts(d)[1].unwrap().1 + xyz_parts(d)[2].unwrap().1
        },
        xyz_parts(d)[i] == cut_decoding(d.skip(xyz_part_start(d, i))),
{
    reveal_with_fuel(xyz_part_start, 5);
}

/// Rebuilds the grid cell of every point from the four sequences; `None` where
/// a row or column overflows 32 bits or a row count is missing.
fn rebuild_grid(y_delta_vec: &Vec<u32>, num_points_per_row_vec: &Vec<u32>, x_delta_vec: &Vec<u32>, z_vec: &Vec<u32>) -> (r: Option<Vec<GridPoint>>)
    ensures
        match r {
            None => grid_points(y_delta_vec@, num_points_per_row_vec@, x_delta_vec@, z_vec@) is None,
            Some(v) => grid_points(y_delta_vec@, num_points_per_row_vec@, x_delta_vec@, z_vec@) == Some(v@),
        },
{
    let ghost yd = y_delta_vec@;
    let ghost npr = num_points_per_row_vec@;
    let ghost xd = x_delta_vec@;
    let ghost z = z_vec@;
    let mut points: Vec<GridPoint> = Vec::new();
    let mut iy: i32 = 0;
    let n_rows = y_delta_vec.len();
    let mut cnt: usize = 0;
    let mut i: usize = 0;
    while i < n_rows
        invariant
            yd == y_delta_vec@,
            npr == num_points_per_row_vec@,
            xd == x_delta_vec@,
            z == z_vec@,
            n_rows == yd.len(),
            i <= n_rows,
            grid_rows(yd, npr, xd, z, i as nat) == Some((points@, iy as int, cnt as nat)),
            cnt <= xd.len(),
        decreases n_rows - i,
    {
        if i >= num_points_per_row_vec.len() {
            proof {
                lemma_rows_stay_none(yd, npr, xd, z, (i + 1) as nat, n_rows as nat);
            }
            return None;
        }
        let step = y_delta_vec[i] as i32;
        if (step > 0 && iy > i32::MAX - step) || (step < 0 && iy < i32::MIN - step) {
            proof {
                lemma_rows_stay_none(yd, npr, xd, z, (i + 1) as nat, n_rows as nat);
            }
            return None;
        }
        iy = iy + step;
        let mut ix: i32 = 0;
        let n_pts = num_points_per_row_vec[i] as usize;
        let ghost start = cnt as nat;
        let ghost before = points@;
        let mut j: usize = 0;
        while j < n_pts
            invariant
                yd == y_delta_vec@,
                npr == num_points_per_row_vec@,
                xd == x_delta_vec@,
                z == z_vec@,
                n_rows == yd.len(),
                i < n_rows,
                i < npr.len(),
                n_pts == npr[i as int],
                grid_rows(yd, npr, xd, z, i as nat) matches Some(prev) && prev.2 == start && iy == prev.1 + (yd[i as int] as i32) && prev.0 == before,
                fits_i32(iy as int),
                j <= n_pts,
                grid_row(xd, z, start, iy, j as nat) == Some((points@.subrange(before.len() as int, points@.len() as int), ix as int, cnt as nat)),
                points@.subrange(0, before.len() as int) == before,
                before.len() <= points@.len(),
                cnt <= xd.len(),
            ensures
                grid_row(xd, z, start, iy, n_pts as nat) == Some((points@.subrange(before.len() as int, points@.len() as int), ix as int, cnt as nat)),
                points@.subrange(0, before.len() as int) == before,
                before.len() <= points@.len(),
                cnt <= xd.len(),
            decreases n_pts - j,
        {
            if cnt >= x_delta_vec.len() || cnt >= z_vec.len() {
                proof {
                    lemma_row_stays(xd, z, start, iy, (j + 1) as nat, n_pts as nat);
                }
                break;
            }
            let dx = x_delta_vec[cnt] as i32;
            if (dx > 0 && ix > i32::MAX - dx) || (dx < 0 && ix < i32::MIN - dx) {
                proof {
                    lemma_row_none_stays(xd, z, start, iy, (j + 1) as nat, n_pts as nat);
                    lemma_rows_stay_none(yd, npr, xd, z, (i + 1) as nat, n_rows as nat);
                }
                return None;
            }
            ix = ix + dx;
            let iz = z_vec[cnt] as i32;
            cnt = cnt + 1;
            points.push((ix, iy, iz));
            j = j + 1;
            proof {
                assert(points@.subrange(before.len() as int, points@.len() as int) =~= grid_row(xd, z, start, iy, (j - 1) as nat).unwrap().0.push((ix, iy, iz)));
                assert(points@.subrange(0, before.len() as int) =~= before);
            }
        }
        i = i + 1;
        proof {
            assert(points@ =~= before + points@.subrange(before.len() as int, points@.len() as int));
        }
    }
    proof {
        assert(grid_rows(yd, npr, xd, z, n_rows as nat) == Some((points@, iy as int, cnt as nat)));
    }
    Some(points)
}

/// A row that stopped for want of values stays stopped.
proof fn lemma_row_stays(xd: Seq<u32>, z: Seq<u32>, start: nat, iy: i32, k: nat, k2: nat)
    requires
        k <= k2,
        grid_row(xd, z, start, iy, (k - 1) as nat) matches Some(prev) && (prev.2 >= xd.len() || prev.2 >= z.len()),
        k >= 1,
    ensures
        grid_row(xd, z, start, iy, k2) == grid_row(xd, z, start, iy, (k - 1) as nat),
    decreases k2 - k,
{
    if k < k2 {
        lemma_row_stays(xd, z, start, iy, k, (k2 - 1) as nat);
    }
}

/// A row that overflowed stays overflowed.
proof fn lemma_row_none_stays(xd: Seq<u32>, z: Seq<u32>, start: nat, iy: i32, k: nat, k2: nat)
    requires
        k <= k2,
        grid_row(xd, z, start, iy, k) is None,
    ensures
        grid_row(xd, z, start, iy, k2) is None,
    decreases k2 - k,
{
    if k < k2 {
        lemma_row_none_stays(xd, z, start, iy, k, (k2 - 1) as nat);
    }
}

/// Rows that failed stay failed.
proof fn lemma_rows_stay_none(yd: Seq<u32>, npr: Seq<u32>, xd: Seq<u32>, z: Seq<u32>, r: nat, r2: nat)
    requires
        r <= r2,
        grid_rows(yd, npr, xd, z, r) is None,
    ensures
        grid_rows(yd, npr, xd, z, r2) is None,
    decreases r2 - r,
{
    if r < r2 {
        lemma_rows_stay_none(yd, npr, xd, z, r, (r2 - 1) as nat);
    }
}

} // verus!
