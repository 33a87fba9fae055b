//! Coordinate-format sparse matrices: validation of a batch against the
//! row/col/value schema, dimension inference, and the read-only summaries
//! the sparse viewer draws (triples window, sparsity grid, diagonal and
//! per-row connectivity digests).

use vstd::prelude::*;

use crate::schema::BatchSchema;
use crate::schema::SchemaError;
use crate::schema::find_field;
use crate::schema::metadata_dimension;
use crate::schema::spec_declared_dim;
use crate::window::visible_window;
use crate::window::window_end;
use crate::window::window_start;

verus! {

/// The data of one column, as far as the sparse path reads it: 32-bit
/// coordinates with their null flags, float values reduced to their null
/// flags (the numbers themselves never enter the core), or nothing.
pub enum ColumnData {
    /// Values and null flags, index by index; a null slot holds whatever the
    /// backing buffer holds there.
    UInt32 { values: Vec<u32>, nulls: Vec<bool> },
    /// Null flags of a 64-bit float column.
    Float64 { nulls: Vec<bool> },
    /// A column of any other type; never read here.
    Opaque,
}

impl ColumnData {
    /// Values and flags describe the same slots.
    pub open spec fn wf(self) -> bool {
        match self {
            ColumnData::UInt32 { values, nulls } => values@.len() == nulls@.len(),
            _ => true,
        }
    }

    pub open spec fn is_u32(self) -> bool {
        self is UInt32
    }

    pub open spec fn is_f64(self) -> bool {
        self is Float64
    }

    pub open spec fn u32_values(self) -> Seq<u32> {
        match self {
            ColumnData::UInt32 { values, .. } => values@,
            _ => Seq::empty(),
        }
    }

    pub open spec fn u32_nulls(self) -> Seq<bool> {
        match self {
            ColumnData::UInt32 { nulls, .. } => nulls@,
            _ => Seq::empty(),
        }
    }

    pub open spec fn f64_nulls(self) -> Seq<bool> {
        match self {
            ColumnData::Float64 { nulls } => nulls@,
            _ => Seq::empty(),
        }
    }
}

/// Index `i` is where the last column named `target` stands.
pub open spec fn is_last_named(names: Seq<String>, target: Seq<char>, i: int) -> bool {
    &&& 0 <= i < names.len()
    &&& names[i]@ == target
    &&& forall|j: int| i < j < names.len() ==> names[j]@ != target
}

/// The largest value in a sequence of coordinates, zero when empty.
pub open spec fn max_u32(s: Seq<u32>) -> int
    decreases s.len(),
{
    if s.len() == 0 {
        0
    } else {
        let rest = max_u32(s.drop_last());
        if s.last() as int > rest {
            s.last() as int
        } else {
            rest
        }
    }
}

/// One more than the largest coordinate, the inferred extent of an axis;
/// saturates at the largest representable size.
pub open spec fn inferred_dim(s: Seq<u32>) -> usize {
    if max_u32(s) + 1 <= usize::MAX {
        (max_u32(s) + 1) as usize
    } else {
        usize::MAX
    }
}

/// The largest value among the first `k` entries of a coordinate column.
pub fn max_coordinate(values: &Vec<u32>) -> (r: u32)
    ensures
        r == max_u32(values@),
{
    let mut m: u32 = 0;
    let mut i: usize = 0;
    while i < values.len()
        invariant
            i <= values@.len(),
            m == max_u32(values@.take(i as int)),
        decreases values@.len() - i,
    {
        proof {
            assert(values@.take(i + 1).drop_last() =~= values@.take(i as int));
        }
        if values[i] > m {
            m = values[i];
        }
        i = i + 1;
    }
    proof {
        assert(values@.take(values@.len() as int) =~= values@);
    }
    m
}

/// An element-for-element copy of a vector of plain values.
pub fn copy_vec<T: Copy>(v: &Vec<T>) -> (r: Vec<T>)
    ensures
        r@ == v@,
{
    let mut out: Vec<T> = Vec::new();
    let mut i: usize = 0;
    while i < v.len()
        invariant
            i <= v@.len(),
            out@ =~= v@.take(i as int),
        decreases v@.len() - i,
    {
        out.push(v[i]);
        proof {
            assert(out@ =~= v@.take(i + 1));
        }
        i = i + 1;
    }
    proof {
        assert(out@ =~= v@);
    }
    out
}

/// A validated coordinate batch: the three parallel arrays and the matrix
/// extent, declared by the metadata or inferred from the data.
#[derive(Debug)]
pub struct CooView {
    /// Row index of each stored entry.
    pub row_idx: Vec<u32>,
    /// Column index of each stored entry.
    pub col_idx: Vec<u32>,
    /// Whether the stored value of each entry is null.
    pub value_nulls: Vec<bool>,
    /// Matrix extent.
    pub n_rows: usize,
    pub n_cols: usize,
    /// Count of stored entries.
    pub nnz: usize,
}

impl CooView {
    /// The three arrays walk in step.
    pub open spec fn wf(self) -> bool {
        &&& self.row_idx@.len() == self.nnz
        &&& self.col_idx@.len() == self.nnz
        &&& self.value_nulls@.len() == self.nnz
    }

    /// Validate a batch against the coordinate layout and copy its triples
    /// out.  On `Ok`: the arrays come from the last columns named row, col
    /// and value; the extent is the declared `rows`/`cols` metadata pair
    /// when both parse, else one more than the largest index seen on each
    /// axis.  Each error comes exactly when its check fails, in this order:
    /// fewer than three columns; the trio absent; a wrong column type; the
    /// arrays disagreeing in length.
    pub fn from_batch(schema: &BatchSchema, columns: &Vec<ColumnData>) -> (r: Result<
        CooView,
        SchemaError,
    >)
        requires
            schema.wf(),
            columns@.len() == schema.names@.len(),
            forall|i: int| 0 <= i < columns@.len() ==> columns@[i].wf(),
        ensures
            match r {
                Ok(v) => {
                    &&& v.wf()
                    &&& exists|ri: int, ci: int, vi: int|
                        {
                            &&& is_last_named(schema.names@, "row"@, ri)
                            &&& is_last_named(schema.names@, "col"@, ci)
                            &&& is_last_named(schema.names@, "value"@, vi)
                            &&& columns@[ri].is_u32()
                            &&& columns@[ci].is_u32()
                            &&& columns@[vi].is_f64()
                            &&& v.row_idx@ == columns@[ri].u32_values()
                            &&& v.col_idx@ == columns@[ci].u32_values()
                            &&& v.value_nulls@ == columns@[vi].f64_nulls()
                        }
                    &&& v.nnz == v.row_idx@.len()
                    &&& {
                        let dr = spec_declared_dim(schema.metadata@, "rows"@);
                        let dc = spec_declared_dim(schema.metadata@, "cols"@);
                        if dr is Some && dc is Some {
                            v.n_rows == dr->0 && v.n_cols == dc->0
                        } else {
                            v.n_rows == inferred_dim(v.row_idx@) && v.n_cols == inferred_dim(
                                v.col_idx@,
                            )
                        }
                    }
                },
                Err(e) => {
                    ||| (e is NotEnoughColumns && schema.names@.len() < 3)
                    ||| (e is MissingCoordinateColumns && schema.names@.len() >= 3 && !(
                    (exists|i: int| is_last_named(schema.names@, "row"@, i)) && (exists|i: int|
                        is_last_named(schema.names@, "col"@, i)) && (exists|i: int|
                        is_last_named(schema.names@, "value"@, i))))
                    ||| (e is WrongColumnType && exists|ri: int, ci: int, vi: int|
                        {
                            &&& is_last_named(schema.names@, "row"@, ri)
                            &&& is_last_named(schema.names@, "col"@, ci)
                            &&& is_last_named(schema.names@, "value"@, vi)
                            &&& !(columns@[ri].is_u32() && columns@[ci].is_u32()
                                && columns@[vi].is_f64())
                        })
                    ||| (e is LengthMismatch && exists|ri: int, ci: int, vi: int|
                        {
                            &&& is_last_named(schema.names@, "row"@, ri)
                            &&& is_last_named(schema.names@, "col"@, ci)
                            &&& is_last_named(schema.names@, "value"@, vi)
                            &&& !(columns@[ri].u32_values().len() == columns@[ci].u32_values().len()
                                && columns@[ci].u32_values().len() == columns@[vi].f64_nulls().len())
                        })
                },
            },
    {
        if columns.len() < 3 {
            return Err(SchemaError::NotEnoughColumns);
        }
        let ri = match find_field(&schema.names, "row") {
            Some(i) => i,
            None => { return Err(SchemaError::MissingCoordinateColumns) },
        };
        let ci = match find_field(&schema.names, "col") {
            Some(i) => i,
            None => { return Err(SchemaError::MissingCoordinateColumns) },
        };
        let vi = match find_field(&schema.names, "value") {
            Some(i) => i,
            None => { return Err(SchemaError::MissingCoordinateColumns) },
        };
        proof {
            assert(is_last_named(schema.names@, "row"@, ri as int));
            assert(is_last_named(schema.names@, "col"@, ci as int));
            assert(is_last_named(schema.names@, "value"@, vi as int));
        }
        let row_values = match &columns[ri] {
            ColumnData::UInt32 { values, nulls: _ } => values,
            _ => { return Err(SchemaError::WrongColumnType) },
        };
        let col_values = match &columns[ci] {
            ColumnData::UInt32 { values, nulls: _ } => values,
            _ => { return Err(SchemaError::WrongColumnType) },
        };
        let value_nulls = match &columns[vi] {
            ColumnData::Float64 { nulls } => nulls,
            _ => { return Err(SchemaError::WrongColumnType) },
        };
        proof {
            assert(columns@[ri as int].u32_values() == row_values@);
            assert(columns@[ci as int].u32_values() == col_values@);
            assert(columns@[vi as int].f64_nulls() == value_nulls@);
        }
        let nnz = row_values.len();
        if col_values.len() != nnz || value_nulls.len() != nnz {
            return Err(SchemaError::LengthMismatch);
        }
        let declared_rows = metadata_dimension(&schema.metadata, "rows");
        let declared_cols = metadata_dimension(&schema.metadata, "cols");
        let (n_rows, n_cols) = match (declared_rows, declared_cols) {
            (Some(r), Some(c)) => (r, c),
            _ => {
                let max_r = max_coordinate(row_values);
                let max_c = max_coordinate(col_values);
                let nr = if (max_r as usize) < usize::MAX {
                    max_r as usize + 1
                } else {
                    usize::MAX
                };
                let nc = if (max_c as usize) < usize::MAX {
                    max_c as usize + 1
                } else {
                    usize::MAX
                };
                (nr, nc)
            },
        };
        Ok(
            CooView {
                row_idx: copy_vec(row_values),
                col_idx: copy_vec(col_values),
                value_nulls: copy_vec(value_nulls),
                n_rows,
                n_cols,
                nnz,
            },
        )
    }

    /// The half-open range of triples shown by the scrolled triples table.
    pub fn triples_window(&self, offset: usize, max_visible: usize) -> (r: (usize, usize))
        ensures
            r.0 == window_start(offset as nat, self.nnz as nat),
            r.1 == window_end(offset as nat, self.nnz as nat, max_visible as nat),
            r.0 <= r.1 <= self.nnz,
            r.1 - r.0 <= max_visible,
    {
        visible_window(offset, max_visible, self.nnz)
    }
}

/// Weak lexicographic order on pairs.
pub open spec fn pair_le(a: (usize, usize), b: (usize, usize)) -> bool {
    a.0 < b.0 || (a.0 == b.0 && a.1 <= b.1)
}

pub open spec fn sorted_pairs(s: Seq<(usize, usize)>) -> bool {
    forall|i: int, j: int| 0 <= i < j < s.len() ==> pair_le(s[i], s[j])
}

/// Sort pairs into weak lexicographic order, keeping exactly the same
/// collection of pairs (as a multiset).  Insertion sort: the input is small
/// digest material, never the bulk data.
pub fn sort_pairs(v: &mut Vec<(usize, usize)>)
    ensures
        sorted_pairs(final(v)@),
        final(v)@.to_multiset() == old(v)@.to_multiset(),
        final(v)@.len() == old(v)@.len(),
{
    let ghost orig = v@;
    let n = v.len();
    if n <= 1 {
        return ;
    }
    let mut i: usize = 1;
    while i < n
        invariant
            1 <= i <= n,
            n == v@.len(),
            v@.to_multiset() == orig.to_multiset(),
            forall|a: int, b: int| 0 <= a < b < i ==> pair_le(v@[a], v@[b]),
        decreases n - i,
    {
        let mut j: usize = i;
        while j > 0 && (v[j].0 < v[j - 1].0 || (v[j].0 == v[j - 1].0 && v[j].1 < v[j - 1].1))
            invariant
                j <= i < n,
                n == v@.len(),
                v@.to_multiset() == orig.to_multiset(),
                forall|a: int, b: int|
                    0 <= a < b <= i && a != j && b != j ==> pair_le(v@[a], v@[b]),
                forall|b: int| j < b <= i ==> pair_le(v@[j as int], v@[b]),
            decreases j,
        {
            let ghost before = v@;
            let a = v[j - 1];
            let b = v[j];
            v.set(j - 1, b);
            v.set(j, a);
            proof {
                broadcast use vstd::seq_lib::to_multiset_update;

                before.to_multiset_ensures();
                assert(before.contains(a));
                assert(before.contains(b));
                assert(v@ =~= before.update(j - 1, b).update(j as int, a));
                assert(v@.to_multiset() =~= before.to_multiset());
            }
            j = j - 1;
        }
        proof {
            assert forall|a: int, b: int| 0 <= a < b <= i implies pair_le(v@[a], v@[b]) by {
                if b == j as int && a < j - 1 {
                    assert(pair_le(v@[a], v@[j - 1]));
                    assert(pair_le(v@[j - 1], v@[j as int]));
                }
            }
        }
        i = i + 1;
    }
}

/// Every pair of a sorted list's prefix precedes every pair left out of it.
pub proof fn lemma_sorted_take_dominates(s: Seq<(usize, usize)>, k: int)
    requires
        sorted_pairs(s),
        0 <= k <= s.len(),
    ensures
        forall|p: int, q: int| 0 <= p < k <= q < s.len() ==> pair_le(s[p], s[q]),
        sorted_pairs(s.take(k)),
{
}

/// No two pairs share their second component: each key occurs once.
pub open spec fn distinct_seconds(s: Seq<(usize, usize)>) -> bool {
    forall|q1: int, q2: int| 0 <= q1 < q2 < s.len() ==> s[q1].1 != s[q2].1
}

/// The first `k` pairs in weak lexicographic order.  The result is sorted,
/// holds `min(k, n)` of the given pairs, keeps every key unique, and every
/// pair left out is preceded by every pair kept: the unique ranked prefix.
pub fn ranked_prefix(v: &mut Vec<(usize, usize)>, k: usize)
    requires
        distinct_seconds(old(v)@),
    ensures
        final(v)@.len() == if k <= old(v)@.len() {
            k as int
        } else {
            old(v)@.len() as int
        },
        sorted_pairs(final(v)@),
        distinct_seconds(final(v)@),
        forall|q: int| 0 <= q < final(v)@.len() ==> old(v)@.contains(#[trigger] final(v)@[q]),
        forall|p: (usize, usize)| #[trigger]
            old(v)@.contains(p) ==> (final(v)@.contains(p) || forall|q: int|
                0 <= q < final(v)@.len() ==> pair_le(#[trigger] final(v)@[q], p)),
        k >= old(v)@.len() ==> forall|p: (usize, usize)| #[trigger]
            old(v)@.contains(p) ==> final(v)@.contains(p),
{
    let ghost orig = v@;
    sort_pairs(v);
    let ghost sorted = v@;
    proof {
        orig.to_multiset_ensures();
        sorted.to_multiset_ensures();
        assert(orig.no_duplicates()) by {
            assert forall|q1: int, q2: int|
                0 <= q1 < q2 < orig.len() implies orig[q1] != orig[q2] by {
                assert(orig[q1].1 != orig[q2].1);
            }
        }
        orig.lemma_multiset_has_no_duplicates();
        assert forall|x: (usize, usize)| sorted.to_multiset().count(x) <= 1 by {
            if sorted.to_multiset().count(x) > 0 {
                assert(orig.to_multiset().contains(x));
            }
        }
        sorted.lemma_multiset_has_no_duplicates_conv();
    }
    let cut = if k <= v.len() {
        k
    } else {
        v.len()
    };
    v.truncate(cut);
    proof {
        assert(v@ =~= sorted.take(cut as int));
        lemma_sorted_take_dominates(sorted, cut as int);
        // every kept pair comes from the input
        assert forall|q: int| 0 <= q < v@.len() implies orig.contains(#[trigger] v@[q]) by {
            assert(sorted.contains(sorted[q]));
            assert(orig.to_multiset().contains(sorted[q]));
        }
        // keys stay unique: the sorted list repeats no pair, and two
        // different pairs with one key would already clash in the input
        assert forall|q1: int, q2: int|
            0 <= q1 < q2 < v@.len() implies v@[q1].1 != v@[q2].1 by {
            assert(sorted[q1] != sorted[q2]);
            assert(orig.contains(v@[q1]) && orig.contains(v@[q2]));
            if v@[q1].1 == v@[q2].1 {
                let p1 = choose|p1: int| 0 <= p1 < orig.len() && orig[p1] == v@[q1];
                let p2 = choose|p2: int| 0 <= p2 < orig.len() && orig[p2] == v@[q2];
                assert(orig[p1].1 == orig[p2].1);
            }
        }
        // with room for everything, nothing is dropped
        if k >= orig.len() {
            assert forall|p: (usize, usize)| #[trigger]
                orig.contains(p) implies v@.contains(p) by {
                assert(orig.to_multiset().contains(p));
                assert(sorted.to_multiset().contains(p));
                assert(sorted.contains(p));
                let q0 = choose|q0: int| 0 <= q0 < sorted.len() && sorted[q0] == p;
                assert(v@[q0] == p);
            }
        }
        // a pair left out is dominated by everything kept
        assert forall|p: (usize, usize)| #[trigger]
            orig.contains(p) implies (v@.contains(p) || forall|q: int|
            0 <= q < v@.len() ==> pair_le(#[trigger] v@[q], p)) by {
            assert(orig.to_multiset().contains(p));
            assert(sorted.to_multiset().contains(p));
            assert(sorted.contains(p));
            let q0 = choose|q0: int| 0 <= q0 < sorted.len() && sorted[q0] == p;
            if q0 < cut {
                assert(v@[q0] == p);
                assert(v@.contains(p));
            } else {
                assert forall|q: int| 0 <= q < v@.len() implies pair_le(
                    #[trigger] v@[q],
                    p,
                ) by {
                    assert(pair_le(sorted[q], sorted[q0]));
                }
            }
        }
    }
}

/// Whether stored entry `i` lights grid cell `(y, x)`: its coordinates are
/// in range and scale onto that cell.
pub open spec fn entry_maps_to_cell(
    m: CooView,
    grid_w: int,
    grid_h: int,
    i: int,
    y: int,
    x: int,
) -> bool {
    &&& 0 <= i < m.nnz
    &&& m.row_idx@[i] < m.n_rows
    &&& m.col_idx@[i] < m.n_cols
    &&& m.row_idx@[i] * grid_h / (m.n_rows as int) == y
    &&& m.col_idx@[i] * grid_w / (m.n_cols as int) == x
}

/// A grid cell is marked when some stored entry maps onto it.
pub open spec fn cell_marked(m: CooView, grid_w: int, grid_h: int, y: int, x: int) -> bool {
    exists|i: int| entry_maps_to_cell(m, grid_w, grid_h, i, y, x)
}

/// A grid cell lit by one of the first `i` stored entries.
spec fn cell_marked_upto(
    m: CooView,
    grid_w: int,
    grid_h: int,
    i: int,
    y: int,
    x: int,
) -> bool {
    exists|e: int| e < i && entry_maps_to_cell(m, grid_w, grid_h, e, y, x)
}

/// Position of cell `(y, x)` in a flat row-major grid of width `w`.
spec fn cell_index(w: int, y: int, x: int) -> int {
    y * w + x
}

/// The number of stored entries on row `r` among the first `k` triples.
pub open spec fn count_row_upto(rows: Seq<u32>, r: int, k: int) -> int
    decreases k,
{
    if k <= 0 {
        0
    } else {
        count_row_upto(rows, r, k - 1) + if rows[k - 1] == r {
            1int
        } else {
            0int
        }
    }
}

/// The number of stored entries on row `r`.
pub open spec fn count_row(rows: Seq<u32>, r: int) -> int {
    count_row_upto(rows, r, rows.len() as int)
}

/// The number of stored entries on the main diagonal among the first `k`.
pub open spec fn count_diag_upto(m: CooView, k: int) -> int
    decreases k,
{
    if k <= 0 {
        0
    } else {
        count_diag_upto(m, k - 1) + if m.row_idx@[k - 1] == m.col_idx@[k - 1] {
            1int
        } else {
            0int
        }
    }
}

impl CooView {
    /// Scale the sparsity pattern down onto a `grid_h` by `grid_w` character
    /// grid: cell `(y, x)` is lit exactly when some stored entry with
    /// in-range coordinates lands on it.  Entries outside the declared
    /// extent are skipped, as the full-size pattern would skip them.
    pub fn sparsity_grid(&self, grid_w: usize, grid_h: usize) -> (grid: Vec<Vec<bool>>)
        requires
            self.wf(),
            grid_w > 0,
            grid_h > 0,
            self.n_rows > 0,
            self.n_cols > 0,
            self.n_rows * grid_h <= usize::MAX,
            self.n_cols * grid_w <= usize::MAX,
            grid_h * grid_w <= usize::MAX,
        ensures
            grid@.len() == grid_h,
            forall|y: int| 0 <= y < grid_h ==> grid@[y]@.len() == grid_w,
            forall|y: int, x: int|
                0 <= y < grid_h && 0 <= x < grid_w ==> grid@[y]@[x] == cell_marked(
                    *self,
                    grid_w as int,
                    grid_h as int,
                    y,
                    x,
                ),
    {
        let mut flat: Vec<bool> = vec![false; grid_h * grid_w];
        proof {
            assert forall|y: int, x: int|
                #![trigger cell_index(grid_w as int, y, x)]
                0 <= y < grid_h && 0 <= x < grid_w implies flat@[cell_index(grid_w as int, y, x)]
                == cell_marked_upto(*self, grid_w as int, grid_h as int, 0, y, x) by {
                assert(0 <= cell_index(grid_w as int, y, x) < grid_h * grid_w) by (nonlinear_arith)
                    requires
                        0 <= y < grid_h,
                        0 <= x < grid_w,
                ;
                assert(!flat@[cell_index(grid_w as int, y, x)]);
            }
        }
        let mut i: usize = 0;
        while i < self.nnz
            invariant
                self.wf(),
                i <= self.nnz,
                grid_w > 0,
                grid_h > 0,
                self.n_rows > 0,
                self.n_cols > 0,
                self.n_rows * grid_h <= usize::MAX,
                self.n_cols * grid_w <= usize::MAX,
                grid_h * grid_w <= usize::MAX,
                flat@.len() == grid_h * grid_w,
                forall|y: int, x: int|
                    #![trigger cell_index(grid_w as int, y, x)]
                    0 <= y < grid_h && 0 <= x < grid_w ==> flat@[cell_index(grid_w as int, y, x)]
                        == cell_marked_upto(*self, grid_w as int, grid_h as int, i as int, y, x),
            decreases self.nnz - i,
        {
            let r = self.row_idx[i] as usize;
            let c = self.col_idx[i] as usize;
            if r < self.n_rows && c < self.n_cols {
                proof {
                    assert(r * grid_h < self.n_rows * grid_h) by (nonlinear_arith)
                        requires
                            r < self.n_rows,
                            grid_h > 0,
                    ;
                    assert(c * grid_w < self.n_cols * grid_w) by (nonlinear_arith)
                        requires
                            c < self.n_cols,
                            grid_w > 0,
                    ;
                }
                let gr = (r * grid_h) / self.n_rows;
                let gc = (c * grid_w) / self.n_cols;
                proof {
                    assert(gr < grid_h) by (nonlinear_arith)
                        requires
                            gr == (r * grid_h) / (self.n_rows as int),
                            r < self.n_rows,
                            grid_h > 0,
                            self.n_rows > 0,
                    ;
                    assert(gc < grid_w) by (nonlinear_arith)
                        requires
                            gc == (c * grid_w) / (self.n_cols as int),
                            c < self.n_cols,
                            grid_w > 0,
                            self.n_cols > 0,
                    ;
                    assert(gr * grid_w + gc < grid_h * grid_w) by (nonlinear_arith)
                        requires
                            gr < grid_h,
                            gc < grid_w,
                    ;
                }
                let ghost before = flat@;
                let idx = gr * grid_w + gc;
                flat.set(idx, true);
                proof {
                    assert(entry_maps_to_cell(
                        *self,
                        grid_w as int,
                        grid_h as int,
                        i as int,
                        gr as int,
                        gc as int,
                    ));
                    assert forall|y: int, x: int|
                        #![trigger cell_index(grid_w as int, y, x)]
                        0 <= y < grid_h && 0 <= x < grid_w implies flat@[cell_index(
                        grid_w as int,
                        y,
                        x,
                    )] == cell_marked_upto(
                        *self,
                        grid_w as int,
                        grid_h as int,
                        i + 1,
                        y,
                        x,
                    ) by {
                        if y == gr && x == gc {
                            assert(flat@[cell_index(grid_w as int, y, x)]);
                        } else {
                            assert(0 <= cell_index(grid_w as int, y, x) < grid_h * grid_w
                                && cell_index(grid_w as int, y, x) != cell_index(
                                grid_w as int,
                                gr as int,
                                gc as int,
                            )) by (nonlinear_arith)
                                requires
                                    0 <= y < grid_h,
                                    0 <= x < grid_w,
                                    0 <= gr < grid_h,
                                    0 <= gc < grid_w,
                                    !(y == gr && x == gc),
                            ;
                            assert(flat@[cell_index(grid_w as int, y, x)] == before[cell_index(
                                grid_w as int,
                                y,
                                x,
                            )]);
                            assert(cell_marked_upto(
                                *self,
                                grid_w as int,
                                grid_h as int,
                                i + 1,
                                y,
                                x,
                            ) == cell_marked_upto(
                                *self,
                                grid_w as int,
                                grid_h as int,
                                i as int,
                                y,
                                x,
                            ));
                        }
                    }
                }
            } else {
                proof {
                    assert forall|y: int, x: int|
                        #![trigger cell_index(grid_w as int, y, x)]
                        0 <= y < grid_h && 0 <= x < grid_w implies flat@[cell_index(
                        grid_w as int,
                        y,
                        x,
                    )] == cell_marked_upto(
                        *self,
                        grid_w as int,
                        grid_h as int,
                        i + 1,
                        y,
                        x,
                    ) by {
                        assert(cell_marked_upto(
                            *self,
                            grid_w as int,
                            grid_h as int,
                            i + 1,
                            y,
                            x,
                        ) == cell_marked_upto(*self, grid_w as int, grid_h as int, i as int, y, x));
                    }
                }
            }
            i = i + 1;
        }
        let grid = rows_of(&flat, grid_h, grid_w);
        proof {
            assert forall|y: int, x: int|
                0 <= y < grid_h && 0 <= x < grid_w implies grid@[y]@[x] == cell_marked(
                *self,
                grid_w as int,
                grid_h as int,
                y,
                x,
            ) by {
                assert(grid@[y]@[x] == flat@[cell_index(grid_w as int, y, x)]);
                assert(cell_marked_upto(*self, grid_w as int, grid_h as int, self.nnz as int, y, x)
                    == cell_marked(*self, grid_w as int, grid_h as int, y, x));
            }
        }
        grid
    }

    /// The number of stored entries on each row of the matrix: entry `r`
    /// counts the triples whose row index is `r`.  Rows beyond the declared
    /// extent are skipped.
    pub fn row_nnz_counts(&self) -> (counts: Vec<usize>)
        requires
            self.wf(),
        ensures
            counts@.len() == self.n_rows,
            forall|r: int| 0 <= r < self.n_rows ==> counts@[r] == count_row(self.row_idx@, r),
    {
        let mut counts: Vec<usize> = vec![0; self.n_rows];
        let mut i: usize = 0;
        while i < self.nnz
            invariant
                self.wf(),
                i <= self.nnz,
                counts@.len() == self.n_rows,
                forall|r: int|
                    0 <= r < self.n_rows ==> counts@[r] == count_row_upto(
                        self.row_idx@,
                        r,
                        i as int,
                    ),
            decreases self.nnz - i,
        {
            proof {
                lemma_count_row_bound(self.row_idx@, i as int);
            }
            let r = self.row_idx[i] as usize;
            if r < self.n_rows {
                let cur = counts[r];
                counts.set(r, cur + 1);
            }
            i = i + 1;
        }
        counts
    }
}

/// Rank of stored entry `i` in the diagonal digest: its row, then its
/// position, ascending.
pub open spec fn diag_key(m: CooView, i: int) -> (usize, usize) {
    (m.row_idx@[i] as usize, i as usize)
}

/// Rank of matrix row `r` in the connectivity digest: the more stored
/// entries the earlier, ties broken by the smaller row.
pub open spec fn row_rank_key(m: CooView, r: int) -> (usize, usize) {
    ((usize::MAX - count_row(m.row_idx@, r)) as usize, r as usize)
}

/// The number of rows among the first `k` with at least one stored entry.
pub open spec fn count_active_upto(m: CooView, k: int) -> int
    decreases k,
{
    if k <= 0 {
        0
    } else {
        count_active_upto(m, k - 1) + if count_row(m.row_idx@, k - 1) > 0 {
            1int
        } else {
            0int
        }
    }
}

impl CooView {
    /// The positions of the first `max_items` entries on the main diagonal,
    /// ordered by row and, within a row, by position.  Every diagonal entry
    /// left out ranks at or after everything returned.
    pub fn diagonal_entries(&self, max_items: usize) -> (r: Vec<usize>)
        requires
            self.wf(),
        ensures
            r@.len() == if max_items <= count_diag_upto(*self, self.nnz as int) {
                max_items as int
            } else {
                count_diag_upto(*self, self.nnz as int)
            },
            forall|j: int|
                0 <= j < r@.len() ==> #[trigger] r@[j] < self.nnz && self.row_idx@[r@[j] as int]
                    == self.col_idx@[r@[j] as int],
            forall|j1: int, j2: int|
                0 <= j1 < j2 < r@.len() ==> pair_le(
                    diag_key(*self, r@[j1] as int),
                    diag_key(*self, r@[j2] as int),
                ),
            forall|j1: int, j2: int| 0 <= j1 < j2 < r@.len() ==> r@[j1] != r@[j2],
            forall|i: int|
                0 <= i < self.nnz && self.row_idx@[i] == self.col_idx@[i] && !r@.contains(
                    i as usize,
                ) ==> forall|j: int|
                    0 <= j < r@.len() ==> pair_le(
                        diag_key(*self, #[trigger] r@[j] as int),
                        diag_key(*self, i),
                    ),
    {
        let mut pairs: Vec<(usize, usize)> = Vec::new();
        let mut i: usize = 0;
        while i < self.nnz
            invariant
                self.wf(),
                i <= self.nnz,
                pairs@.len() == count_diag_upto(*self, i as int),
                forall|q: int|
                    0 <= q < pairs@.len() ==> (#[trigger] pairs@[q]).1 < i && self.row_idx@[pairs@[q].1 as int]
                        == self.col_idx@[pairs@[q].1 as int] && pairs@[q] == diag_key(
                        *self,
                        pairs@[q].1 as int,
                    ),
                forall|q1: int, q2: int|
                    0 <= q1 < q2 < pairs@.len() ==> pairs@[q1].1 < pairs@[q2].1,
                forall|e: int|
                    0 <= e < i && self.row_idx@[e] == self.col_idx@[e] ==> pairs@.contains(
                        diag_key(*self, e),
                    ),
            decreases self.nnz - i,
        {
            if self.row_idx[i] == self.col_idx[i] {
                let ghost prev = pairs@;
                let row = self.row_idx[i] as usize;
                pairs.push((row, i));
                proof {
                    assert(pairs@[prev.len() as int] == diag_key(*self, i as int));
                    assert forall|e: int|
                        0 <= e < i + 1 && self.row_idx@[e] == self.col_idx@[e] implies pairs@
                        .contains(diag_key(*self, e)) by {
                        if e < i {
                            assert(prev.contains(diag_key(*self, e)));
                            let q = choose|q: int|
                                0 <= q < prev.len() && prev[q] == diag_key(*self, e);
                            assert(pairs@[q] == diag_key(*self, e));
                        }
                    }
                }
            }
            i = i + 1;
        }
        let ghost built = pairs@;
        ranked_prefix(&mut pairs, max_items);
        let mut out: Vec<usize> = Vec::new();
        let mut q: usize = 0;
        while q < pairs.len()
            invariant
                q <= pairs@.len(),
                out@.len() == q,
                forall|j: int| 0 <= j < q ==> out@[j] == (#[trigger] pairs@[j]).1,
            decreases pairs@.len() - q,
        {
            out.push(pairs[q].1);
            q = q + 1;
        }
        proof {
            assert forall|j: int|
                0 <= j < out@.len() implies #[trigger] out@[j] < self.nnz && self.row_idx@[out@[j] as int]
                == self.col_idx@[out@[j] as int] && pairs@[j] == diag_key(
                *self,
                out@[j] as int,
            ) by {
                assert(built.contains(pairs@[j]));
                let w = choose|w: int| 0 <= w < built.len() && built[w] == pairs@[j];
            }
            assert forall|i0: int|
                0 <= i0 < self.nnz && self.row_idx@[i0] == self.col_idx@[i0] && !out@.contains(
                    i0 as usize,
                ) implies forall|j: int|
                0 <= j < out@.len() ==> pair_le(
                    diag_key(*self, #[trigger] out@[j] as int),
                    diag_key(*self, i0),
                ) by {
                assert(built.contains(diag_key(*self, i0)));
                if pairs@.contains(diag_key(*self, i0)) {
                    let q0 = choose|q0: int|
                        0 <= q0 < pairs@.len() && pairs@[q0] == diag_key(*self, i0);
                    assert(out@[q0] == i0 as usize);
                    assert(false);
                } else {
                    assert forall|j: int| 0 <= j < out@.len() implies pair_le(
                        diag_key(*self, #[trigger] out@[j] as int),
                        diag_key(*self, i0),
                    ) by {
                        assert(pair_le(pairs@[j], diag_key(*self, i0)));
                    }
                }
            }
        }
        out
    }

    /// The first `max_rows` matrix rows ranked by how many stored entries
    /// they hold, most first, ties to the smaller row; each with its entry
    /// count.  Rows with no stored entry never appear, and every active row
    /// left out ranks at or after everything returned.
    pub fn top_connected_rows(&self, max_rows: usize) -> (out: Vec<(usize, usize)>)
        requires
            self.wf(),
        ensures
            out@.len() == if max_rows <= count_active_upto(*self, self.n_rows as int) {
                max_rows as int
            } else {
                count_active_upto(*self, self.n_rows as int)
            },
            forall|j: int|
                0 <= j < out@.len() ==> (#[trigger] out@[j]).0 < self.n_rows && out@[j].1
                    == count_row(self.row_idx@, out@[j].0 as int) && out@[j].1 > 0,
            forall|j1: int, j2: int|
                0 <= j1 < j2 < out@.len() ==> ((#[trigger] out@[j1]).1 > (#[trigger] out@[j2]).1
                    || (out@[j1].1 == out@[j2].1 && out@[j1].0 < out@[j2].0)),
            forall|rr: int|
                0 <= rr < self.n_rows && count_row(self.row_idx@, rr) > 0 && !(exists|j: int|
                    0 <= j < out@.len() && (#[trigger] out@[j]).0 == rr) ==> forall|j: int|
                    0 <= j < out@.len() ==> pair_le(
                        row_rank_key(*self, #[trigger] out@[j].0 as int),
                        row_rank_key(*self, rr),
                    ),
    {
        let counts = self.row_nnz_counts();
        let mut pairs: Vec<(usize, usize)> = Vec::new();
        let mut r: usize = 0;
        while r < self.n_rows
            invariant
                self.wf(),
                r <= self.n_rows,
                counts@.len() == self.n_rows,
                forall|rr: int|
                    0 <= rr < self.n_rows ==> counts@[rr] == count_row(self.row_idx@, rr),
                pairs@.len() == count_active_upto(*self, r as int),
                forall|q: int|
                    0 <= q < pairs@.len() ==> (#[trigger] pairs@[q]).1 < r && count_row(
                        self.row_idx@,
                        pairs@[q].1 as int,
                    ) > 0 && pairs@[q] == row_rank_key(*self, pairs@[q].1 as int),
                forall|q1: int, q2: int|
                    0 <= q1 < q2 < pairs@.len() ==> pairs@[q1].1 < pairs@[q2].1,
                forall|rr: int|
                    0 <= rr < r && count_row(self.row_idx@, rr) > 0 ==> pairs@.contains(
                        row_rank_key(*self, rr),
                    ),
            decreases self.n_rows - r,
        {
            let c = counts[r];
            if c > 0 {
                let ghost prev = pairs@;
                proof {
                    lemma_count_row_bound(self.row_idx@, self.row_idx@.len() as int);
                }
                pairs.push((usize::MAX - c, r));
                proof {
                    assert(pairs@[prev.len() as int] == row_rank_key(*self, r as int));
                    assert forall|rr: int|
                        0 <= rr < r + 1 && count_row(self.row_idx@, rr) > 0 implies pairs@
                        .contains(row_rank_key(*self, rr)) by {
                        if rr < r {
                            assert(prev.contains(row_rank_key(*self, rr)));
                            let q = choose|q: int|
                                0 <= q < prev.len() && prev[q] == row_rank_key(*self, rr);
                            assert(pairs@[q] == row_rank_key(*self, rr));
                        }
                    }
                }
            }
            r = r + 1;
        }
        let ghost built = pairs@;
        proof {
            assert(forall|q: int|
                0 <= q < built.len() ==> (#[trigger] built[q]).1 < self.n_rows && count_row(
                    self.row_idx@,
                    built[q].1 as int,
                ) > 0 && built[q] == row_rank_key(*self, built[q].1 as int));
        }
        ranked_prefix(&mut pairs, max_rows);
        let mut out: Vec<(usize, usize)> = Vec::new();
        let mut q: usize = 0;
        while q < pairs.len()
            invariant
                self.wf(),
                q <= pairs@.len(),
                out@.len() == q,
                counts@.len() == self.n_rows,
                forall|rr: int|
                    0 <= rr < self.n_rows ==> counts@[rr] == count_row(self.row_idx@, rr),
                forall|j: int|
                    0 <= j < pairs@.len() ==> built.contains(#[trigger] pairs@[j]),
                forall|q0: int|
                    0 <= q0 < built.len() ==> (#[trigger] built[q0]).1 < self.n_rows && count_row(
                        self.row_idx@,
                        built[q0].1 as int,
                    ) > 0 && built[q0] == row_rank_key(*self, built[q0].1 as int),
                forall|j: int|
                    0 <= j < q ==> (#[trigger] out@[j]).0 == pairs@[j].1 && out@[j].1 == count_row(
                        self.row_idx@,
                        pairs@[j].1 as int,
                    ),
            decreases pairs@.len() - q,
        {
            proof {
                assert(built.contains(pairs@[q as int]));
                let w = choose|w: int| 0 <= w < built.len() && built[w] == pairs@[q as int];
                assert(built[w].1 < self.n_rows);
                assert(pairs@[q as int].1 < self.n_rows);
            }
            let row = pairs[q].1;
            out.push((row, counts[row]));
            q = q + 1;
        }
        proof {
            assert forall|j: int|
                0 <= j < out@.len() implies (#[trigger] out@[j]).0 < self.n_rows && out@[j].1
                == count_row(self.row_idx@, out@[j].0 as int) && out@[j].1 > 0 && pairs@[j]
                == row_rank_key(*self, out@[j].0 as int) by {
                assert(built.contains(pairs@[j]));
                let w = choose|w: int| 0 <= w < built.len() && built[w] == pairs@[j];
                lemma_count_row_bound(self.row_idx@, self.row_idx@.len() as int);
            }
            assert forall|j1: int, j2: int|
                0 <= j1 < j2 < out@.len() implies ((#[trigger] out@[j1]).1 > (#[trigger] out@[j2]).1
                || (out@[j1].1 == out@[j2].1 && out@[j1].0 < out@[j2].0)) by {
                assert(pair_le(pairs@[j1], pairs@[j2]));
                assert(pairs@[j1].1 != pairs@[j2].1);
            }
            assert forall|rr: int|
                0 <= rr < self.n_rows && count_row(self.row_idx@, rr) > 0 && !(exists|j: int|
                    0 <= j < out@.len() && (#[trigger] out@[j]).0 == rr) implies forall|j: int|
                0 <= j < out@.len() ==> pair_le(
                    row_rank_key(*self, #[trigger] out@[j].0 as int),
                    row_rank_key(*self, rr),
                ) by {
                assert(built.contains(row_rank_key(*self, rr)));
                if pairs@.contains(row_rank_key(*self, rr)) {
                    let q0 = choose|q0: int|
                        0 <= q0 < pairs@.len() && pairs@[q0] == row_rank_key(*self, rr);
                    assert(out@[q0].0 == rr as usize);
                    assert(false);
                } else {
                    assert forall|j: int| 0 <= j < out@.len() implies pair_le(
                        row_rank_key(*self, #[trigger] out@[j].0 as int),
                        row_rank_key(*self, rr),
                    ) by {
                        assert(pair_le(pairs@[j], row_rank_key(*self, rr)));
                    }
                }
            }
        }
        out
    }
}

/// Reshape a flat row-major store into its rows: entry `x` of row `y` is
/// element `y * cols + x`.
pub fn rows_of<T: Copy>(flat: &Vec<T>, rows: usize, cols: usize) -> (out: Vec<Vec<T>>)
    requires
        flat@.len() == rows * cols,
    ensures
        out@.len() == rows,
        forall|y: int| 0 <= y < rows ==> out@[y]@.len() == cols,
        forall|y: int, x: int|
            0 <= y < rows && 0 <= x < cols ==> out@[y]@[x] == flat@[y * cols + x],
{
    let mut out: Vec<Vec<T>> = Vec::new();
    let mut y: usize = 0;
    while y < rows
        invariant
            y <= rows,
            flat@.len() == rows * cols,
            out@.len() == y,
            forall|yy: int| 0 <= yy < y ==> out@[yy]@.len() == cols,
            forall|yy: int, x: int|
                0 <= yy < y && 0 <= x < cols ==> out@[yy]@[x] == flat@[yy * cols + x],
        decreases rows - y,
    {
        let mut line: Vec<T> = Vec::new();
        let mut x: usize = 0;
        while x < cols
            invariant
                x <= cols,
                y < rows,
                flat@.len() == rows * cols,
                line@.len() == x,
                forall|xx: int| 0 <= xx < x ==> line@[xx] == flat@[y * cols + xx],
            decreases cols - x,
        {
            let _row_bound = flat.len();
            proof {
                assert(y * cols + x < rows * cols) by (nonlinear_arith)
                    requires
                        y < rows,
                        x < cols,
                ;
            }
            let idx = y * cols + x;
            line.push(flat[idx]);
            x = x + 1;
        }
        out.push(line);
        y = y + 1;
    }
    out
}

/// Counts of the first `k` triples never exceed `k`.
proof fn lemma_count_row_bound(rows: Seq<u32>, k: int)
    requires
        0 <= k <= rows.len(),
    ensures
        forall|r: int| 0 <= #[trigger] count_row_upto(rows, r, k) <= k,
    decreases k,
{
    if k > 0 {
        lemma_count_row_bound(rows, k - 1);
        assert forall|r: int| 0 <= #[trigger] count_row_upto(rows, r, k) <= k by {
            assert(0 <= count_row_upto(rows, r, k - 1) <= k - 1);
        }
    }
}

} // verus!
