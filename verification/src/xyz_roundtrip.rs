//! The point blob gives back the grid cells it was written from.
//!
//! The rows of the delta model cover the cells in runs; walking the decoded
//! row distances, row lengths, column distances and heights rebuilds every
//! cell of cells in row-major order.
use vstd::prelude::*;
use crate::bit_math::{le_bytes, le_value};
use crate::blob::{seal, lemma_seal_checks, checked_blob_size, K_CURR_VERSION};
use crate::common::fletcher32;
use crate::bit_stuffer2::{lemma_le_bytes_len, lemma_le_bytes_value};
use crate::lepcc_xyz::{Cell3D, GridPoint, cell_rows, row_start, row_deltas, row_lengths, column_deltas,
    heights, last_row, grid_row, grid_rows, grid_points, cells_nonneg, cells_in_order, sorted_cells, lemma_sorted_cells, cut_encoding, cut_decoding,
    cut_overflows, lemma_cut_roundtrip, lepcc_key, xyz_blob, xyz_encodable, xyz_grid, xyz_grid_panics,
    xyz_parts, xyz_part_start, xyz_parts_ok, xyz_frame_ok, xyz_num_bytes, lemma_cut_size_is_length, lemma_cut_encodable};

verus! {

/// Where row `r` of `rows` starts among the cells: the cells of the rows before it.
pub open spec fn rows_end(rows: Seq<(i32, nat)>, r: int) -> int
    decreases r,
{
    if r <= 0 {
        0
    } else {
        rows_end(rows, r - 1) + rows[r - 1].1
    }
}

/// Each cell comes after the previous one in its row, or in a later row.
pub open spec fn cells_row_major(s: Seq<Cell3D>) -> bool {
    forall|k: int|
        0 < k < s.len() ==> s[k - 1].y < (#[trigger] s[k]).y || (s[k - 1].y == s[k].y && s[k - 1].x
            <= s[k].x)
}

/// The grid cell of every cell.
pub open spec fn grid_of(s: Seq<Cell3D>) -> Seq<GridPoint> {
    Seq::new(s.len(), |k: int| (s[k].x, s[k].y, s[k].z))
}

/// The cells of row `r` lie in that row.
pub open spec fn row_holds(s: Seq<Cell3D>, rows: Seq<(i32, nat)>, r: int) -> bool {
    forall|i: int| rows_end(rows, r) <= i < rows_end(rows, r + 1) ==> (#[trigger] s[i]).y == rows[r].0
}

/// How the runs of `cell_rows` cover the cells: every row holds at least one
/// cell, its cells lie in its row, and neighbouring rows differ.
pub open spec fn rows_cover(s: Seq<Cell3D>, rows: Seq<(i32, nat)>) -> bool {
    &&& rows_end(rows, rows.len() as int) == s.len()
    &&& forall|r: int| 0 <= r < rows.len() ==> (#[trigger] rows[r]).1 >= 1
    &&& forall|r: int| 0 <= r < rows.len() ==> #[trigger] row_holds(s, rows, r)
    &&& forall|r: int| 0 < r < rows.len() ==> (#[trigger] rows[r]).0 != rows[r - 1].0
}

/// Row ends depend only on the rows before.
proof fn lemma_rows_end_prefix(a: Seq<(i32, nat)>, b: Seq<(i32, nat)>, r: int)
    requires
        0 <= r <= a.len(),
        r <= b.len(),
        forall|i: int| 0 <= i < r ==> a[i] == b[i],
    ensures
        rows_end(a, r) == rows_end(b, r),
    decreases r,
{
    if r > 0 {
        lemma_rows_end_prefix(a, b, r - 1);
    }
}

/// Row ends grow with the rows.
proof fn lemma_rows_end_mono(rows: Seq<(i32, nat)>, r1: int, r2: int)
    requires
        0 <= r1 <= r2,
    ensures
        rows_end(rows, r1) <= rows_end(rows, r2),
    decreases r2,
{
    if r2 > r1 {
        lemma_rows_end_mono(rows, r1, r2 - 1);
    }
}

/// One more cell in the last row keeps the rows covering the cells.
#[verifier::spinoff_prover]
#[verifier::rlimit(30)]
proof fn lemma_cover_extend(s: Seq<Cell3D>)
    requires
        s.len() > 0,
        rows_cover(s.drop_last(), cell_rows(s.drop_last())),
        cell_rows(s.drop_last()).len() > 0,
        cell_rows(s.drop_last()).last().0 == s.last().y,
    ensures
        rows_cover(s, cell_rows(s)),
{
    let t = s.drop_last();
    let p = cell_rows(t);
    let rows = cell_rows(s);
    let y = s.last().y;
    let n = p.len() as int;
    assert(rows == p.update(n - 1, (y, p.last().1 + 1)));
    lemma_rows_end_prefix(rows, p, n - 1);
    assert(rows_end(rows, n) == rows_end(p, n) + 1);
    assert forall|r: int| 0 <= r < rows.len() implies #[trigger] row_holds(s, rows, r) by {
        assert(row_holds(t, p, r));
        if r < n - 1 {
            lemma_rows_end_prefix(rows, p, r);
            lemma_rows_end_prefix(rows, p, r + 1);
            lemma_rows_end_mono(p, r + 1, n);
            lemma_rows_end_mono(p, 0, r);
            assert forall|i: int| rows_end(rows, r) <= i < rows_end(rows, r + 1) implies (
            #[trigger] s[i]).y == rows[r].0 by {
                assert(s[i] == t[i]);
            }
        } else {
            lemma_rows_end_mono(rows, 0, r);
            assert forall|i: int| rows_end(rows, r) <= i < rows_end(rows, r + 1) implies (
            #[trigger] s[i]).y == rows[r].0 by {
                if i < t.len() {
                    assert(s[i] == t[i]);
                }
            }
        }
    }
    assert forall|r: int| 0 < r < rows.len() implies (#[trigger] rows[r]).0 != rows[r - 1].0 by {
        assert(p[r].0 != p[r - 1].0);
    }
    assert forall|r: int| 0 <= r < rows.len() implies (#[trigger] rows[r]).1 >= 1 by {
        assert(p[r].1 >= 1);
    }
}

/// A cell in a new row keeps the rows covering the cells.
#[verifier::spinoff_prover]
#[verifier::rlimit(30)]
proof fn lemma_cover_push(s: Seq<Cell3D>)
    requires
        s.len() > 0,
        rows_cover(s.drop_last(), cell_rows(s.drop_last())),
        !(cell_rows(s.drop_last()).len() > 0 && cell_rows(s.drop_last()).last().0 == s.last().y),
    ensures
        rows_cover(s, cell_rows(s)),
{
    let t = s.drop_last();
    let p = cell_rows(t);
    let rows = cell_rows(s);
    let y = s.last().y;
    let n = p.len() as int;
    assert(rows == p.push((y, 1nat)));
    lemma_rows_end_prefix(rows, p, n);
    assert forall|r: int| 0 <= r < rows.len() implies #[trigger] row_holds(s, rows, r) by {
        if r < n {
            assert(row_holds(t, p, r));
            lemma_rows_end_prefix(rows, p, r);
            lemma_rows_end_prefix(rows, p, r + 1);
            lemma_rows_end_mono(p, r + 1, n);
            lemma_rows_end_mono(p, 0, r);
            assert forall|i: int| rows_end(rows, r) <= i < rows_end(rows, r + 1) implies (
            #[trigger] s[i]).y == rows[r].0 by {
                assert(s[i] == t[i]);
            }
        }
    }
    assert forall|r: int| 0 < r < rows.len() implies (#[trigger] rows[r]).0 != rows[r - 1].0 by {
        if r < n {
            assert(p[r].0 != p[r - 1].0);
        }
    }
    assert forall|r: int| 0 <= r < rows.len() implies (#[trigger] rows[r]).1 >= 1 by {
        if r < n {
            assert(p[r].1 >= 1);
        }
    }
}

/// The rows of any cells cover them.
pub proof fn lemma_rows_cover(s: Seq<Cell3D>)
    ensures
        rows_cover(s, cell_rows(s)),
    decreases s.len(),
{
    if s.len() > 0 {
        let t = s.drop_last();
        lemma_rows_cover(t);
        if cell_rows(t).len() > 0 && cell_rows(t).last().0 == s.last().y {
            lemma_cover_extend(s);
        } else {
            lemma_cover_push(s);
        }
    }
}

/// The cells are in row-major order, nonnegative, and as many as 32 bits count.
pub open spec fn grid_ready(s: Seq<Cell3D>) -> bool {
    &&& s.len() <= u32::MAX
    &&& cells_nonneg(s)
    &&& cells_row_major(s)
}

/// The cell before the first of row `r > 0` lies in row `r - 1`, below row `r`.
#[verifier::spinoff_prover]
#[verifier::rlimit(30)]
proof fn lemma_row_boundary(s: Seq<Cell3D>, r: int)
    requires
        grid_ready(s),
        rows_cover(s, cell_rows(s)),
        0 < r < cell_rows(s).len(),
    ensures
        ({
            let rows = cell_rows(s);
            let e = rows_end(rows, r);
            &&& 0 < e < s.len()
            &&& s[e - 1].y == rows[r - 1].0
            &&& s[e].y == rows[r].0
            &&& rows[r - 1].0 < rows[r].0
        }),
{
    let rows = cell_rows(s);
    let e = rows_end(rows, r);
    lemma_rows_end_mono(rows, 0, r - 1);
    lemma_rows_end_mono(rows, r + 1, rows.len() as int);
    assert(rows[r - 1].1 >= 1);
    assert(rows[r].1 >= 1);
    assert(row_holds(s, rows, r - 1));
    assert(row_holds(s, rows, r));
    assert(s[e - 1].y == rows[r - 1].0);
    assert(s[e].y == rows[r].0);
    assert(rows[r].0 != rows[r - 1].0);
    assert(s[e - 1].y <= s[e].y);
}

/// Cell `j` of row `r` is rebuilt from the column of the cell before it in the row.
#[verifier::spinoff_prover]
#[verifier::rlimit(30)]
proof fn lemma_row_cell(s: Seq<Cell3D>, r: int, j: int)
    requires
        grid_ready(s),
        rows_cover(s, cell_rows(s)),
        0 <= r < cell_rows(s).len(),
        0 <= j < cell_rows(s)[r].1,
    ensures
        ({
            let i = rows_end(cell_rows(s), r) + j;
            let prev_x: int = if j == 0 {
                0
            } else {
                s[i - 1].x as int
            };
            &&& 0 <= i < s.len()
            &&& i < column_deltas(s).len()
            &&& i < heights(s).len()
            &&& prev_x + (column_deltas(s)[i] as i32) == s[i].x
            &&& heights(s)[i] as i32 == s[i].z
            &&& s[i].y == cell_rows(s)[r].0
        }),
{
    let rows = cell_rows(s);
    let start = rows_end(rows, r);
    let i = start + j;
    lemma_rows_end_mono(rows, 0, r);
    lemma_rows_end_mono(rows, r + 1, rows.len() as int);
    assert(row_holds(s, rows, r));
    assert(s[i].y == rows[r].0);
    assert(0 <= s[i].x && 0 <= s[i].y && 0 <= s[i].z);
    if j == 0 {
        if r > 0 {
            lemma_row_boundary(s, r);
        }
        assert(row_start(s, i));
    } else {
        assert(s[i - 1].y == rows[r].0);
        assert(!row_start(s, i));
        assert(s[i - 1].x <= s[i].x);
        assert(0 <= s[i - 1].x);
    }
}

/// Walking the first `k` cells of row `r` rebuilds their grid cells.
#[verifier::spinoff_prover]
#[verifier::rlimit(30)]
proof fn lemma_grid_row(s: Seq<Cell3D>, r: int, k: nat)
    requires
        grid_ready(s),
        rows_cover(s, cell_rows(s)),
        0 <= r < cell_rows(s).len(),
        k <= cell_rows(s)[r].1,
    ensures
        ({
            let rows = cell_rows(s);
            let start = rows_end(rows, r);
            grid_row(column_deltas(s), heights(s), start as nat, rows[r].0, k) == Some(
                (
                    grid_of(s).subrange(start, start + k),
                    if k == 0 {
                        0
                    } else {
                        s[start + k - 1].x as int
                    },
                    (start + k) as nat,
                ),
            )
        }),
    decreases k,
{
    let rows = cell_rows(s);
    let start = rows_end(rows, r);
    lemma_rows_end_mono(rows, 0, r);
    lemma_rows_end_mono(rows, r, rows.len() as int);
    if k == 0 {
        assert(grid_of(s).subrange(start, start) =~= Seq::<GridPoint>::empty());
    } else {
        let j = (k - 1) as nat;
        lemma_grid_row(s, r, j);
        lemma_row_cell(s, r, j as int);
        let i = start + j;
        assert(grid_of(s).subrange(start, start + k) =~= grid_of(s).subrange(start, start + j).push(
            (s[i].x, s[i].y, s[i].z),
        ));
    }
}

/// Walking the first `r` rows rebuilds the grid cells of their cells.
#[verifier::spinoff_prover]
#[verifier::rlimit(30)]
proof fn lemma_grid_rows(s: Seq<Cell3D>, r: nat)
    requires
        grid_ready(s),
        rows_cover(s, cell_rows(s)),
        r <= cell_rows(s).len(),
    ensures
        ({
            let rows = cell_rows(s);
            grid_rows(row_deltas(rows), row_lengths(rows), column_deltas(s), heights(s), r) == Some(
                (
                    grid_of(s).take(rows_end(rows, r as int)),
                    last_row(rows.take(r as int)),
                    rows_end(rows, r as int) as nat,
                ),
            )
        }),
    decreases r,
{
    let rows = cell_rows(s);
    if r == 0 {
        assert(grid_of(s).take(0) =~= Seq::<GridPoint>::empty());
    } else {
        let j = (r - 1) as nat;
        lemma_grid_rows(s, j);
        lemma_rows_end_mono(rows, 0, j as int);
        lemma_rows_end_mono(rows, r as int, rows.len() as int);
        let e = rows_end(rows, j as int);
        assert(rows[j as int].1 >= 1);
        assert(row_holds(s, rows, j as int));
        assert(s[e].y == rows[j as int].0);
        assert(0 <= s[e].y);
        if j > 0 {
            lemma_row_boundary(s, j as int);
            assert(0 <= s[e - 1].y);
            assert(last_row(rows.take(j as int)) == rows[j - 1].0);
        }
        assert(rows[j as int].1 <= u32::MAX);
        lemma_grid_row(s, j as int, rows[j as int].1);
        assert(rows.take(r as int).last() == rows[j as int]);
        assert(grid_of(s).take(e) + grid_of(s).subrange(e, e + rows[j as int].1) =~= grid_of(s).take(
            rows_end(rows, r as int),
        ));
    }
}

/// The delta model of cells in row-major order, nonnegative and as many as 32
/// bits count, rebuilds their grid cells.
pub proof fn lemma_delta_model_roundtrip(s: Seq<Cell3D>)
    requires
        grid_ready(s),
    ensures
        grid_points(row_deltas(cell_rows(s)), row_lengths(cell_rows(s)), column_deltas(s), heights(s))
            == Some(grid_of(s)),
{
    let rows = cell_rows(s);
    lemma_rows_cover(s);
    lemma_grid_rows(s, rows.len());
    assert(grid_of(s).take(s.len() as int) =~= grid_of(s));
}

/// Every row holds a cell, so there are no more rows than cells.
proof fn lemma_rows_at_most(rows: Seq<(i32, nat)>, r: int)
    requires
        0 <= r <= rows.len(),
        forall|i: int| 0 <= i < rows.len() ==> (#[trigger] rows[i]).1 >= 1,
    ensures
        rows_end(rows, r) >= r,
    decreases r,
{
    if r > 0 {
        lemma_rows_at_most(rows, r - 1);
    }
}

/// A sealed point blob holds its four sequences one after the other from byte 104.
proof fn lemma_sealed_layout(geometry: Seq<u8>, n: nat, ea: Seq<u8>, eb: Seq<u8>, ec: Seq<u8>, ed: Seq<u8>)
    requires
        geometry.len() == 72,
        seal(lepcc_key(), geometry + le_bytes(n, 4) + le_bytes(0, 4) + ea + eb + ec + ed).len()
            <= u32::MAX,
    ensures
        ({
            let d = seal(lepcc_key(), geometry + le_bytes(n, 4) + le_bytes(0, 4) + ea + eb + ec + ed);
            &&& xyz_frame_ok(d)
            &&& checked_blob_size(d, lepcc_key()) == Some(d.len())
            &&& n <= u32::MAX ==> le_value(d, 96, 4) == n
            &&& d.skip(104) == ea + (eb + ec + ed)
            &&& d.skip(104 + ea.len() as int) == eb + (ec + ed)
            &&& d.skip(104 + ea.len() + eb.len() as int) == ec + ed
            &&& d.skip(104 + ea.len() + eb.len() + ec.len() as int) == ed + Seq::<u8>::empty()
        }),
{
    let rest = geometry + le_bytes(n, 4) + le_bytes(0, 4) + ea + eb + ec + ed;
    let d = seal(lepcc_key(), rest);
    let tail = le_bytes((24 + rest.len()) as nat, 8) + rest;
    lemma_le_bytes_len(K_CURR_VERSION as nat, 2);
    lemma_le_bytes_len(fletcher32(tail) as nat, 4);
    lemma_le_bytes_len((24 + rest.len()) as nat, 8);
    lemma_le_bytes_len(n, 4);
    lemma_le_bytes_len(0, 4);
    lemma_seal_checks(lepcc_key(), rest, Seq::empty());
    assert(d + Seq::<u8>::empty() =~= d);
    if n <= u32::MAX {
        vstd::arithmetic::power2::lemma2_to64();
        assert(d.subrange(96, 100) =~= le_bytes(n, 4));
        lemma_le_bytes_value(n, 4, d, 96);
    }
    assert(d.skip(104) =~= ea + (eb + ec + ed));
    assert(d.skip(104 + ea.len() as int) =~= eb + (ec + ed));
    assert(d.skip(104 + ea.len() + eb.len() as int) =~= ec + ed);
    assert(d.skip(104 + ea.len() + eb.len() + ec.len() as int) =~= ed + Seq::<u8>::empty());
}

/// Four sequences that decode one after the other from byte 104 are the parts of the blob.
#[verifier::spinoff_prover]
#[verifier::rlimit(50)]
proof fn lemma_parts_read(
    d: Seq<u8>,
    ea: Seq<u8>,
    eb: Seq<u8>,
    ec: Seq<u8>,
    ed: Seq<u8>,
    a: Seq<u32>,
    b: Seq<u32>,
    c: Seq<u32>,
    dd: Seq<u32>,
)
    requires
        d.skip(104) == ea + (eb + ec + ed),
        d.skip(104 + ea.len() as int) == eb + (ec + ed),
        d.skip(104 + ea.len() + eb.len() as int) == ec + ed,
        d.skip(104 + ea.len() + eb.len() + ec.len() as int) == ed + Seq::<u8>::empty(),
        cut_decoding(ea + (eb + ec + ed)) == Some((a, ea.len())),
        cut_decoding(eb + (ec + ed)) == Some((b, eb.len())),
        cut_decoding(ec + ed) == Some((c, ec.len())),
        cut_decoding(ed + Seq::<u8>::empty()) == Some((dd, ed.len())),
        !cut_overflows(ea + (eb + ec + ed)),
        !cut_overflows(eb + (ec + ed)),
        !cut_overflows(ec + ed),
        !cut_overflows(ed + Seq::<u8>::empty()),
    ensures
        xyz_parts_ok(d, 4),
        xyz_parts(d)[0] == Some((a, ea.len())),
        xyz_parts(d)[1] == Some((b, eb.len())),
        xyz_parts(d)[2] == Some((c, ec.len())),
        xyz_parts(d)[3] == Some((dd, ed.len())),
        forall|j: int| 0 <= j < 4 ==> !cut_overflows(d.skip(#[trigger] xyz_part_start(d, j))),
{
    let p = xyz_parts(d);
    assert(p[0] == Some((a, ea.len())));
    assert(p[1] == Some((b, eb.len())));
    assert(p[2] == Some((c, ec.len())));
    assert(p[3] == Some((dd, ed.len())));
    assert(xyz_part_start(d, 0) == 104);
    assert(xyz_part_start(d, 1) == 104 + ea.len());
    assert(xyz_part_start(d, 2) == 104 + ea.len() + eb.len());
    assert(xyz_part_start(d, 3) == 104 + ea.len() + eb.len() + ec.len());
}

/// Decoding the point blob of cells in row-major order, nonnegative and of a
/// size that 32 bits count, gives back the grid cell of every cell, in order,
/// and never overflows.
pub proof fn lemma_grid_roundtrip(geometry: Seq<u8>, s: Seq<Cell3D>)
    requires
        geometry.len() == 72,
        0 < s.len(),
        grid_ready(s),
        xyz_encodable(s),
        xyz_blob(geometry, s).len() <= u32::MAX,
    ensures
        xyz_grid(xyz_blob(geometry, s)) == Some(grid_of(s)),
        !xyz_grid_panics(xyz_blob(geometry, s)),
{
    let rows = cell_rows(s);
    let a = row_deltas(rows);
    let b = row_lengths(rows);
    let c = column_deltas(s);
    let dd = heights(s);
    let ea = cut_encoding(a);
    let eb = cut_encoding(b);
    let ec = cut_encoding(c);
    let ed = cut_encoding(dd);
    let d = xyz_blob(geometry, s);
    assert(d == seal(
        lepcc_key(),
        geometry + le_bytes(s.len() as u32 as nat, 4) + le_bytes(0, 4) + ea + eb + ec + ed,
    ));
    lemma_sealed_layout(geometry, s.len() as u32 as nat, ea, eb, ec, ed);
    lemma_rows_cover(s);
    lemma_rows_at_most(rows, rows.len() as int);
    lemma_cut_roundtrip(a, eb + ec + ed);
    lemma_cut_roundtrip(b, ec + ed);
    lemma_cut_roundtrip(c, ed);
    lemma_cut_roundtrip(dd, Seq::empty());
    lemma_parts_read(d, ea, eb, ec, ed, a, b, c, dd);
    lemma_delta_model_roundtrip(s);
}

/// Cells in order of their position in the xy plane, in a grid `nx` cells wide
/// that holds their columns, are in row-major order.
pub proof fn lemma_order_is_row_major(s: Seq<Cell3D>, nx: int)
    requires
        cells_in_order(s),
        forall|k: int|
            0 <= k < s.len() ==> 0 <= (#[trigger] s[k]).x < nx && s[k].xy_cell_index == s[k].y * nx
                + s[k].x,
    ensures
        cells_row_major(s),
{
    assert forall|k: int| 0 < k < s.len() implies s[k - 1].y < (#[trigger] s[k]).y || (s[k - 1].y
        == s[k].y && s[k - 1].x <= s[k].x) by {
        let (y0, x0, y1, x1) = (s[k - 1].y as int, s[k - 1].x as int, s[k].y as int, s[k].x as int);
        assert(s[k - 1].xy_cell_index <= s[k].xy_cell_index);
        assert(y0 < y1 || (y0 == y1 && x0 <= x1)) by (nonlinear_arith)
            requires
                0 <= x0 < nx,
                0 <= x1 < nx,
                y0 * nx + x0 <= y1 * nx + x1,
        {
            if y0 > y1 {
                assert(y0 * nx >= (y1 + 1) * nx);
            }
        }
    }
}

/// The size the encoder computes for non-empty cells is the size of the blob it writes.
pub proof fn lemma_xyz_size(geometry: Seq<u8>, s: Seq<Cell3D>)
    requires
        geometry.len() == 72,
        0 < s.len() <= u32::MAX,
    ensures
        xyz_num_bytes(s) == xyz_blob(geometry, s).len(),
{
    let rows = cell_rows(s);
    let ea = cut_encoding(row_deltas(rows));
    let eb = cut_encoding(row_lengths(rows));
    let ec = cut_encoding(column_deltas(s));
    let ed = cut_encoding(heights(s));
    let n = s.len() as u32 as nat;
    let rest = geometry + le_bytes(n, 4) + le_bytes(0, 4) + ea + eb + ec + ed;
    let tail = le_bytes((24 + rest.len()) as nat, 8) + rest;
    lemma_le_bytes_len(K_CURR_VERSION as nat, 2);
    lemma_le_bytes_len(fletcher32(tail) as nat, 4);
    lemma_le_bytes_len((24 + rest.len()) as nat, 8);
    lemma_le_bytes_len(n, 4);
    lemma_le_bytes_len(0, 4);
    lemma_rows_cover(s);
    lemma_rows_at_most(rows, rows.len() as int);
    lemma_cut_size_is_length(row_deltas(rows));
    lemma_cut_size_is_length(row_lengths(rows));
    lemma_cut_size_is_length(column_deltas(s));
    lemma_cut_size_is_length(heights(s));
}

/// The point blob of non-empty cells is a whole blob with a matching checksum
/// that records the number of cells.
pub proof fn lemma_xyz_header(geometry: Seq<u8>, s: Seq<Cell3D>)
    requires
        geometry.len() == 72,
        0 < s.len() <= u32::MAX,
        xyz_blob(geometry, s).len() <= u32::MAX,
    ensures
        checked_blob_size(xyz_blob(geometry, s), lepcc_key()) == Some(xyz_blob(geometry, s).len()),
        le_value(xyz_blob(geometry, s), 96, 4) == s.len(),
        xyz_blob(geometry, s).len() >= 104,
{
    let rows = cell_rows(s);
    let ea = cut_encoding(row_deltas(rows));
    let eb = cut_encoding(row_lengths(rows));
    let ec = cut_encoding(column_deltas(s));
    let ed = cut_encoding(heights(s));
    lemma_sealed_layout(geometry, s.len() as u32 as nat, ea, eb, ec, ed);
}

/// The cells of a grid `nx` cells wide, as `Cell3D::new` makes them, stay such
/// cells when sorted, and their sorting is in row-major order.
pub open spec fn grid_cells_of_width(s: Seq<Cell3D>, nx: int) -> bool {
    forall|k: int|
        0 <= k < s.len() ==> 0 <= (#[trigger] s[k]).x < nx && 0 <= s[k].y && 0 <= s[k].z
            && s[k].xy_cell_index == s[k].y * nx + s[k].x
}

/// Writing the point blob of the cells of a grid, as the grid encoder sorts
/// them, and decoding it gives back the grid cell of every cell in sorted order.
pub proof fn lemma_encoder_roundtrip(geometry: Seq<u8>, s: Seq<Cell3D>, nx: int)
    requires
        geometry.len() == 72,
        0 < s.len() <= 0x7FFF_FFFF,
        grid_cells_of_width(s, nx),
        xyz_blob(geometry, sorted_cells(s)).len() <= u32::MAX,
    ensures
        xyz_grid(xyz_blob(geometry, sorted_cells(s))) == Some(grid_of(sorted_cells(s))),
        !xyz_grid_panics(xyz_blob(geometry, sorted_cells(s))),
{
    broadcast use vstd::seq_lib::to_multiset_contains;

    let t = sorted_cells(s);
    lemma_sorted_cells(s);
    assert forall|k: int| 0 <= k < t.len() implies #[trigger] s.contains(t[k]) by {
        assert(t.contains(t[k]));
        assert(t.to_multiset().count(t[k]) > 0);
    }
    assert(grid_cells_of_width(t, nx)) by {
        assert forall|k: int| 0 <= k < t.len() implies 0 <= (#[trigger] t[k]).x < nx && 0 <= t[k].y
            && 0 <= t[k].z && t[k].xy_cell_index == t[k].y * nx + t[k].x by {
            assert(s.contains(t[k]));
            let j = choose|j: int| 0 <= j < s.len() && s[j] == t[k];
            assert(grid_cells_of_width(s, nx));
            assert(0 <= s[j].x < nx);
        }
    }
    lemma_order_is_row_major(t, nx);
    lemma_grid_encodable(t);
    lemma_grid_roundtrip(geometry, t);
}

/// The four sequences of the delta model of cells in row-major order,
/// nonnegative and fewer than 2^31, hold only values below 2^31, so the point
/// blob can be written.
pub proof fn lemma_grid_encodable(s: Seq<Cell3D>)
    requires
        grid_ready(s),
        s.len() <= 0x7FFF_FFFF,
    ensures
        xyz_encodable(s),
{
    let rows = cell_rows(s);
    lemma_rows_cover(s);
    let a = row_deltas(rows);
    let b = row_lengths(rows);
    let c = column_deltas(s);
    let d = heights(s);
    assert forall|r: int| 0 <= r < a.len() implies #[trigger] a[r] <= 0x7FFF_FFFF by {
        lemma_rows_end_mono(rows, 0, r);
        lemma_rows_end_mono(rows, r + 1, rows.len() as int);
        assert(rows[r].1 >= 1);
        assert(row_holds(s, rows, r));
        let e = rows_end(rows, r);
        assert(s[e].y == rows[r].0);
        assert(0 <= s[e].y);
        if r > 0 {
            lemma_row_boundary(s, r);
            assert(0 <= s[e - 1].y);
            assert(rows.take(r).last() == rows[r - 1]);
        }
    }
    assert forall|r: int| 0 <= r < b.len() implies #[trigger] b[r] <= 0x7FFF_FFFF by {
        lemma_rows_end_mono(rows, 0, r);
        lemma_rows_end_mono(rows, r + 1, rows.len() as int);
    }
    assert forall|k: int| 0 <= k < c.len() implies #[trigger] c[k] <= 0x7FFF_FFFF by {
        assert(0 <= s[k].x);
        if !row_start(s, k) {
            assert(s[k - 1].y == s[k].y);
            assert(s[k - 1].x <= s[k].x);
            assert(0 <= s[k - 1].x);
        }
    }
    assert forall|k: int| 0 <= k < d.len() implies #[trigger] d[k] <= 0x7FFF_FFFF by {
        assert(0 <= s[k].z);
    }
    lemma_cut_encodable(a);
    lemma_cut_encodable(b);
    lemma_cut_encodable(c);
    lemma_cut_encodable(d);
}

} // verus!