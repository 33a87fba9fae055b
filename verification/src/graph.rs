//! Connectivity graph of a coordinate-format sparse matrix: one node per
//! matrix row, an edge wherever two rows store values in a common column,
//! weighted by how many columns they share.  Built once per batch and then
//! only queried; the adjacency is index-based (node ids into a flat array),
//! so the cyclic node/neighbor structure needs no owned pointers.

use vstd::prelude::*;

use crate::coo::ColumnData;
use crate::coo::is_last_named;
use crate::schema::BatchSchema;
use crate::schema::SchemaError;
use crate::schema::find_field;
use crate::schema::metadata_dimension;
use crate::schema::spec_declared_dim;

verus! {

/// A node of the connectivity graph.
#[derive(Debug, Clone)]
pub struct GraphNode {
    /// The matrix row this node stands for.
    pub id: usize,
    /// Number of incident edges; always the length of `connected_to`.
    pub degree: usize,
    /// The ids of the neighboring nodes, in edge-list order.
    pub connected_to: Vec<usize>,
}

/// An edge between two rows that share at least one column.
#[derive(Debug, Clone, Copy, PartialEq, Eq, Structural)]
pub struct GraphEdge {
    pub from: usize,
    pub to: usize,
    /// Number of columns in which both rows store a value.
    pub weight: usize,
}

/// The connectivity graph of one sparse batch.
#[derive(Debug, Clone)]
pub struct ConnectivityGraph {
    pub nodes: Vec<GraphNode>,
    pub edges: Vec<GraphEdge>,
    pub n_rows: usize,
    pub n_cols: usize,
}

/// The mathematical content of a coordinate batch: the three parallel
/// columns and the matrix extent.
pub ghost struct CooData {
    pub rows: Seq<u32>,
    pub cols: Seq<u32>,
    pub vnull: Seq<bool>,
    pub n_rows: int,
    pub n_cols: int,
}

impl CooData {
    /// Parallel columns of one length; every entry with a stored value lies
    /// inside the extent.
    pub open spec fn wf(self) -> bool {
        &&& self.cols.len() == self.rows.len()
        &&& self.vnull.len() == self.rows.len()
        &&& 0 <= self.n_rows
        &&& 0 <= self.n_cols
        &&& forall|i: int|
            0 <= i < self.rows.len() && !self.vnull[i] ==> self.rows[i] < self.n_rows
                && self.cols[i] < self.n_cols
    }

    /// Row `r` stores a value in column `c` among the first `k` entries.
    pub open spec fn has_col_upto(self, r: int, c: int, k: int) -> bool {
        exists|e: int| 0 <= e < k && !self.vnull[e] && self.rows[e] == r && self.cols[e] == c
    }

    /// Row `r` stores a value in column `c`.  Entries whose value is null
    /// are excluded.
    pub open spec fn has_col(self, r: int, c: int) -> bool {
        self.has_col_upto(r, c, self.rows.len() as int)
    }

    /// The number of columns below `c` in which both rows store a value.
    pub open spec fn shared_upto(self, r1: int, r2: int, c: int) -> int
        decreases c,
    {
        if c <= 0 {
            0
        } else {
            self.shared_upto(r1, r2, c - 1) + if self.has_col(r1, c - 1) && self.has_col(
                r2,
                c - 1,
            ) {
                1int
            } else {
                0int
            }
        }
    }

    /// The number of columns shared by two rows: the weight of their edge.
    pub open spec fn shared(self, r1: int, r2: int) -> int {
        self.shared_upto(r1, r2, self.n_cols)
    }
}

/// The data a validated coordinate view stands for.
pub open spec fn coo_data_of(
    rows: Seq<u32>,
    cols: Seq<u32>,
    vnull: Seq<bool>,
    n_rows: int,
    n_cols: int,
) -> CooData {
    CooData { rows, cols, vnull, n_rows, n_cols }
}

/// Strict ordering of the edge list: by source, then by target.
pub open spec fn edge_lt(e1: GraphEdge, e2: GraphEdge) -> bool {
    e1.from < e2.from || (e1.from == e2.from && e1.to < e2.to)
}

/// The neighbor ids of row `r` read off the first `k` edges, in order: the
/// far endpoint of every edge incident to `r`.
pub open spec fn neighbors_upto(edges: Seq<GraphEdge>, r: int, k: int) -> Seq<usize>
    decreases k,
{
    if k <= 0 {
        Seq::empty()
    } else {
        let rest = neighbors_upto(edges, r, k - 1);
        if edges[k - 1].from == r {
            rest.push(edges[k - 1].to)
        } else if edges[k - 1].to == r {
            rest.push(edges[k - 1].from)
        } else {
            rest
        }
    }
}

/// The neighbor ids of row `r`, in edge-list order.
pub open spec fn neighbors_of(edges: Seq<GraphEdge>, r: int) -> Seq<usize> {
    neighbors_upto(edges, r, edges.len() as int)
}

impl ConnectivityGraph {
    /// Shape invariant: one node per row carrying its own id, neighbor
    /// lists that mirror the edge list exactly, the degree always the
    /// neighbor count, and edges strictly ordered with `from < to` inside
    /// the extent.
    pub open spec fn wf(self) -> bool {
        &&& self.nodes@.len() == self.n_rows
        &&& forall|r: int| 0 <= r < self.n_rows ==> (#[trigger] self.nodes@[r]).id == r
        &&& forall|r: int|
            0 <= r < self.n_rows ==> (#[trigger] self.nodes@[r]).connected_to@ == neighbors_of(
                self.edges@,
                r,
            )
        &&& forall|r: int|
            0 <= r < self.n_rows ==> (#[trigger] self.nodes@[r]).degree
                == self.nodes@[r].connected_to@.len()
        &&& forall|k: int|
            0 <= k < self.edges@.len() ==> (#[trigger] self.edges@[k]).from < self.edges@[k].to
                < self.n_rows
        &&& forall|k1: int, k2: int|
            0 <= k1 < k2 < self.edges@.len() ==> edge_lt(self.edges@[k1], self.edges@[k2])
    }
}

/// The graph describes the data: matching extent, one edge for exactly
/// every unordered pair of rows with a shared column, weighted by the
/// shared-column count.
pub open spec fn graph_models(g: ConnectivityGraph, d: CooData) -> bool {
    &&& g.n_rows == d.n_rows
    &&& g.n_cols == d.n_cols
    &&& forall|k: int|
        0 <= k < g.edges@.len() ==> (#[trigger] g.edges@[k]).weight == d.shared(
            g.edges@[k].from as int,
            g.edges@[k].to as int,
        ) && g.edges@[k].weight > 0
    &&& forall|r1: int, r2: int|
        0 <= r1 < r2 < d.n_rows && #[trigger] d.shared(r1, r2) > 0 ==> exists|k: int|
            0 <= k < g.edges@.len() && (#[trigger] g.edges@[k]).from == r1 && g.edges@[k].to == r2
}

/// The number of column positions below `k` set in both vectors.
pub open spec fn and_upto(a: Seq<bool>, b: Seq<bool>, k: int) -> int
    decreases k,
{
    if k <= 0 {
        0
    } else {
        and_upto(a, b, k - 1) + if a[k - 1] && b[k - 1] {
            1int
        } else {
            0int
        }
    }
}

/// Count the columns marked in both rows' presence vectors.
fn count_and(a: &Vec<bool>, b: &Vec<bool>) -> (cnt: usize)
    requires
        a@.len() == b@.len(),
    ensures
        cnt == and_upto(a@, b@, a@.len() as int),
        cnt <= a@.len(),
{
    let mut cnt: usize = 0;
    let mut i: usize = 0;
    while i < a.len()
        invariant
            i <= a@.len(),
            a@.len() == b@.len(),
            cnt == and_upto(a@, b@, i as int),
            cnt <= i,
        decreases a@.len() - i,
    {
        if a[i] && b[i] {
            cnt = cnt + 1;
        }
        i = i + 1;
    }
    cnt
}

/// Presence vectors that mirror `has_col` turn the conjunction count into
/// the shared-column count.
proof fn lemma_and_is_shared(d: CooData, a: Seq<bool>, b: Seq<bool>, r1: int, r2: int, k: int)
    requires
        a.len() == d.n_cols,
        b.len() == d.n_cols,
        forall|c: int| 0 <= c < d.n_cols ==> a[c] == d.has_col(r1, c),
        forall|c: int| 0 <= c < d.n_cols ==> b[c] == d.has_col(r2, c),
        0 <= k <= d.n_cols,
    ensures
        and_upto(a, b, k) == d.shared_upto(r1, r2, k),
    decreases k,
{
    if k > 0 {
        lemma_and_is_shared(d, a, b, r1, r2, k - 1);
    }
}

/// One row's presence vector: entry `c` says whether the row stores a
/// value in column `c`.
fn presence_row(
    rows: &Vec<u32>,
    cols: &Vec<u32>,
    vnull: &Vec<bool>,
    r: usize,
    n_cols: usize,
    Ghost(d): Ghost<CooData>,
) -> (line: Vec<bool>)
    requires
        d == coo_data_of(rows@, cols@, vnull@, d.n_rows, n_cols as int),
        d.wf(),
        r < d.n_rows,
    ensures
        line@.len() == n_cols,
        forall|c: int| 0 <= c < n_cols ==> line@[c] == d.has_col(r as int, c),
{
    let nnz = rows.len();
    let mut line: Vec<bool> = vec![false; n_cols];
    let mut i: usize = 0;
    while i < nnz
        invariant
            i <= nnz,
            nnz == d.rows.len(),
            d == coo_data_of(rows@, cols@, vnull@, d.n_rows, n_cols as int),
            d.wf(),
            r < d.n_rows,
            line@.len() == n_cols,
            forall|c: int| 0 <= c < n_cols ==> line@[c] == d.has_col_upto(r as int, c, i as int),
        decreases nnz - i,
    {
        if !vnull[i] && rows[i] as usize == r {
            let ghost before = line@;
            let c = cols[i] as usize;
            line.set(c, true);
            proof {
                assert forall|cc: int|
                    0 <= cc < n_cols implies line@[cc] == d.has_col_upto(
                    r as int,
                    cc,
                    i + 1,
                ) by {
                    if cc == c {
                        assert(d.has_col_upto(r as int, cc, i + 1));
                    } else {
                        assert(line@[cc] == before[cc]);
                        assert(d.has_col_upto(r as int, cc, i + 1) == d.has_col_upto(
                            r as int,
                            cc,
                            i as int,
                        ));
                    }
                }
            }
        } else {
            proof {
                assert forall|cc: int|
                    0 <= cc < n_cols implies line@[cc] == d.has_col_upto(
                    r as int,
                    cc,
                    i + 1,
                ) by {
                    assert(d.has_col_upto(r as int, cc, i + 1) == d.has_col_upto(
                        r as int,
                        cc,
                        i as int,
                    ));
                }
            }
        }
        i = i + 1;
    }
    line
}

/// The largest value among the entries of the first `k` slots whose own
/// null flag is clear, zero when none is.
pub open spec fn max_nonnull_upto(vals: Seq<u32>, nulls: Seq<bool>, k: int) -> int
    decreases k,
{
    if k <= 0 {
        0
    } else {
        let rest = max_nonnull_upto(vals, nulls, k - 1);
        if !nulls[k - 1] && vals[k - 1] > rest {
            vals[k - 1] as int
        } else {
            rest
        }
    }
}

/// One more than the largest non-null coordinate: the inferred extent of an
/// axis, saturating at the largest representable size.
pub open spec fn inferred_dim_nonnull(vals: Seq<u32>, nulls: Seq<bool>) -> usize {
    if max_nonnull_upto(vals, nulls, vals.len() as int) + 1 <= usize::MAX {
        (max_nonnull_upto(vals, nulls, vals.len() as int) + 1) as usize
    } else {
        usize::MAX
    }
}

/// The extent of one axis: the declared metadata dimension when it parses,
/// else the extent inferred from the axis's non-null coordinates.
pub open spec fn graph_axis_dim(
    md: Seq<(String, String)>,
    key: Seq<char>,
    vals: Seq<u32>,
    nulls: Seq<bool>,
) -> usize {
    match spec_declared_dim(md, key) {
        Some(v) => v,
        None => inferred_dim_nonnull(vals, nulls),
    }
}

/// The largest value among the non-null entries of a coordinate column.
fn max_coordinate_nonnull(values: &Vec<u32>, nulls: &Vec<bool>) -> (r: u32)
    requires
        values@.len() == nulls@.len(),
    ensures
        r == max_nonnull_upto(values@, nulls@, values@.len() as int),
{
    let mut m: u32 = 0;
    let mut i: usize = 0;
    while i < values.len()
        invariant
            i <= values@.len(),
            values@.len() == nulls@.len(),
            m == max_nonnull_upto(values@, nulls@, i as int),
        decreases values@.len() - i,
    {
        if !nulls[i] && values[i] > m {
            m = values[i];
        }
        i = i + 1;
    }
    m
}

/// Columns `ri`, `ci` and `vi` are the last columns named row, col and
/// value, and carry coordinate and float data respectively.
pub open spec fn coo_columns_located(
    schema: BatchSchema,
    columns: Seq<ColumnData>,
    ri: int,
    ci: int,
    vi: int,
) -> bool {
    &&& is_last_named(schema.names@, "row"@, ri)
    &&& is_last_named(schema.names@, "col"@, ci)
    &&& is_last_named(schema.names@, "value"@, vi)
    &&& columns[ri].is_u32()
    &&& columns[ci].is_u32()
    &&& columns[vi].is_f64()
}

impl ConnectivityGraph {
    /// Validate a batch against the coordinate layout and build its
    /// connectivity graph.  The extent of each axis comes from the
    /// `rows`/`cols` metadata when it parses, else is inferred from that
    /// axis's non-null coordinates.  Each error comes exactly when its
    /// check fails, in this order: the row/col/value trio absent; a wrong
    /// column type; arrays of differing length; a stored entry outside the
    /// extent (such an entry would poison every later traversal).
    pub fn from_coo_batch(schema: &BatchSchema, columns: &Vec<ColumnData>) -> (r: Result<
        ConnectivityGraph,
        SchemaError,
    >)
        requires
            schema.wf(),
            columns@.len() == schema.names@.len(),
            forall|i: int| 0 <= i < columns@.len() ==> (#[trigger] columns@[i]).wf(),
        ensures
            match r {
                Ok(g) => exists|ri: int, ci: int, vi: int|
                    {
                        &&& #[trigger] coo_columns_located(*schema, columns@, ri, ci, vi)
                        &&& {
                            let rows = columns@[ri].u32_values();
                            let cols = columns@[ci].u32_values();
                            let vnull = columns@[vi].f64_nulls();
                            let nr = graph_axis_dim(
                                schema.metadata@,
                                "rows"@,
                                rows,
                                columns@[ri].u32_nulls(),
                            );
                            let nc = graph_axis_dim(
                                schema.metadata@,
                                "cols"@,
                                cols,
                                columns@[ci].u32_nulls(),
                            );
                            &&& g.wf()
                            &&& graph_models(
                                g,
                                coo_data_of(rows, cols, vnull, nr as int, nc as int),
                            )
                        }
                    },
                Err(e) => {
                    ||| (e is MissingCoordinateColumns && !((exists|i: int|
                        is_last_named(schema.names@, "row"@, i)) && (exists|i: int|
                        is_last_named(schema.names@, "col"@, i)) && (exists|i: int|
                        is_last_named(schema.names@, "value"@, i))))
                    ||| (e is WrongColumnType && exists|ri: int, ci: int, vi: int|
                        {
                            &&& is_last_named(schema.names@, "row"@, ri)
                            &&& is_last_named(schema.names@, "col"@, ci)
                            &&& is_last_named(schema.names@, "value"@, vi)
                            &&& !(columns@[ri].is_u32() && columns@[ci].is_u32()
                                && columns@[vi].is_f64())
                        })
                    ||| (e is LengthMismatch && exists|ri: int, ci: int, vi: int|
                        {
                            &&& #[trigger] coo_columns_located(*schema, columns@, ri, ci, vi)
                            &&& !(columns@[ri].u32_values().len() == columns@[ci].u32_values().len()
                                && columns@[ci].u32_values().len() == columns@[vi].f64_nulls().len())
                        })
                    ||| (e is IndexOutOfRange && exists|ri: int, ci: int, vi: int|
                        {
                            &&& #[trigger] coo_columns_located(*schema, columns@, ri, ci, vi)
                            &&& {
                                let rows = columns@[ri].u32_values();
                                let cols = columns@[ci].u32_values();
                                let vnull = columns@[vi].f64_nulls();
                                let nr = graph_axis_dim(
                                    schema.metadata@,
                                    "rows"@,
                                    rows,
                                    columns@[ri].u32_nulls(),
                                );
                                let nc = graph_axis_dim(
                                    schema.metadata@,
                                    "cols"@,
                                    cols,
                                    columns@[ci].u32_nulls(),
                                );
                                exists|i: int|
                                    0 <= i < rows.len() && i < vnull.len() && !vnull[i] && (rows[i]
                                        >= nr || (i < cols.len() && cols[i] >= nc))
                            }
                        })
                },
            },
    {
        let ri = match find_field(&schema.names, "row") {
            Some(i) => i,
            None => { return Err(SchemaError::MissingCoordinateColumns) },
        };
        let ci = match find_field(&schema.names, "col") {
            Some(i) => i,
            None => { return Err(SchemaError::MissingCoordinateColumns) },
        };
        let vi = match find_field(&schema.names, "value") {
            Some(i) => i,
            None => { return Err(SchemaError::MissingCoordinateColumns) },
        };
        proof {
            assert(is_last_named(schema.names@, "row"@, ri as int));
            assert(is_last_named(schema.names@, "col"@, ci as int));
            assert(is_last_named(schema.names@, "value"@, vi as int));
        }
        let (row_values, row_nulls) = match &columns[ri] {
            ColumnData::UInt32 { values, nulls } => (values, nulls),
            _ => { return Err(SchemaError::WrongColumnType) },
        };
        let (col_values, col_nulls) = match &columns[ci] {
            ColumnData::UInt32 { values, nulls } => (values, nulls),
            _ => { return Err(SchemaError::WrongColumnType) },
        };
        let value_nulls = match &columns[vi] {
            ColumnData::Float64 { nulls } => nulls,
            _ => { return Err(SchemaError::WrongColumnType) },
        };
        proof {
            assert(coo_columns_located(*schema, columns@, ri as int, ci as int, vi as int));
            assert(columns@[ri as int].u32_values() == row_values@);
            assert(columns@[ri as int].u32_nulls() == row_nulls@);
            assert(columns@[ci as int].u32_values() == col_values@);
            assert(columns@[ci as int].u32_nulls() == col_nulls@);
            assert(columns@[vi as int].f64_nulls() == value_nulls@);
        }
        let nnz = row_values.len();
        if col_values.len() != nnz || value_nulls.len() != nnz {
            return Err(SchemaError::LengthMismatch);
        }
        let n_rows = match metadata_dimension(&schema.metadata, "rows") {
            Some(v) => v,
            None => {
                let m = max_coordinate_nonnull(row_values, row_nulls);
                if (m as usize) < usize::MAX {
                    m as usize + 1
                } else {
                    usize::MAX
                }
            },
        };
        let n_cols = match metadata_dimension(&schema.metadata, "cols") {
            Some(v) => v,
            None => {
                let m = max_coordinate_nonnull(col_values, col_nulls);
                if (m as usize) < usize::MAX {
                    m as usize + 1
                } else {
                    usize::MAX
                }
            },
        };
        proof {
            assert(n_rows == graph_axis_dim(
                schema.metadata@,
                "rows"@,
                row_values@,
                row_nulls@,
            ));
            assert(n_cols == graph_axis_dim(
                schema.metadata@,
                "cols"@,
                col_values@,
                col_nulls@,
            ));
        }
        let mut i: usize = 0;
        while i < nnz
            invariant
                i <= nnz,
                nnz == row_values@.len(),
                nnz == col_values@.len(),
                nnz == value_nulls@.len(),
                ri < columns@.len(),
                ci < columns@.len(),
                vi < columns@.len(),
                coo_columns_located(*schema, columns@, ri as int, ci as int, vi as int),
                columns@[ri as int].u32_values() == row_values@,
                columns@[ci as int].u32_values() == col_values@,
                columns@[vi as int].f64_nulls() == value_nulls@,
                n_rows == graph_axis_dim(
                    schema.metadata@,
                    "rows"@,
                    row_values@,
                    columns@[ri as int].u32_nulls(),
                ),
                n_cols == graph_axis_dim(
                    schema.metadata@,
                    "cols"@,
                    col_values@,
                    columns@[ci as int].u32_nulls(),
                ),
                forall|e: int|
                    0 <= e < i && !value_nulls@[e] ==> row_values@[e] < n_rows && col_values@[e]
                        < n_cols,
            decreases nnz - i,
        {
            if !value_nulls[i] {
                if row_values[i] as usize >= n_rows || col_values[i] as usize >= n_cols {
                    proof {
                        let rows = columns@[ri as int].u32_values();
                        let cols = columns@[ci as int].u32_values();
                        let vnull = columns@[vi as int].f64_nulls();
                        assert(0 <= i < rows.len() && i < vnull.len() && !vnull[i as int] && (
                        rows[i as int] >= n_rows || (i < cols.len() && cols[i as int] >= n_cols)));
                    }
                    return Err(SchemaError::IndexOutOfRange);
                }
            }
            i = i + 1;
        }
        let g = build_graph(row_values, col_values, value_nulls, n_rows, n_cols);
        Ok(g)
    }
}

/// Rows `a` and `b` are joined by some edge of the list, in either
/// direction; symmetric by construction.
pub open spec fn edges_adj(edges: Seq<GraphEdge>, a: int, b: int) -> bool {
    exists|k: int|
        0 <= k < edges.len() && ((edges[k].from == a && edges[k].to == b) || (edges[k].from == b
            && edges[k].to == a))
}

/// Nodes `a` and `b` are joined by an edge of the graph.
pub open spec fn adj(g: ConnectivityGraph, a: int, b: int) -> bool {
    edges_adj(g.edges@, a, b)
}

/// Node `b` can be reached from node `a` along at most `n` edges.
pub open spec fn reachable_within(g: ConnectivityGraph, a: int, b: int, n: nat) -> bool
    decreases n,
{
    a == b || (n > 0 && exists|m: int| #![auto] adj(g, m, b) && reachable_within(g, a, m, (n - 1) as nat))
}

/// Node `b` can be reached from node `a` along edges of the graph.
pub open spec fn reachable(g: ConnectivityGraph, a: int, b: int) -> bool {
    exists|n: nat| reachable_within(g, a, b, n)
}

/// Every node reaches itself.
pub proof fn lemma_reachable_refl(g: ConnectivityGraph, a: int)
    ensures
        reachable(g, a, a),
{
    assert(reachable_within(g, a, a, 0));
}

/// Reachability extends across one more edge.
pub proof fn lemma_reachable_step(g: ConnectivityGraph, a: int, m: int, b: int)
    requires
        reachable(g, a, m),
        adj(g, m, b),
    ensures
        reachable(g, a, b),
{
    let n = choose|n: nat| reachable_within(g, a, m, n);
    assert(reachable_within(g, a, b, n + 1));
}

/// The neighbor list read off a prefix of the edge list is itself a prefix
/// of the list read off more edges.
proof fn lemma_neighbors_extend(edges: Seq<GraphEdge>, r: int, k1: int, k2: int)
    requires
        0 <= k1 <= k2 <= edges.len(),
    ensures
        forall|x: usize|
            neighbors_upto(edges, r, k1).contains(x) ==> #[trigger] neighbors_upto(
                edges,
                r,
                k2,
            ).contains(x),
    decreases k2 - k1,
{
    if k1 < k2 {
        lemma_neighbors_extend(edges, r, k1, k2 - 1);
        assert forall|x: usize|
            neighbors_upto(edges, r, k1).contains(x) implies #[trigger] neighbors_upto(
            edges,
            r,
            k2,
        ).contains(x) by {
            assert(neighbors_upto(edges, r, k2 - 1).contains(x));
            let j = choose|j: int|
                0 <= j < neighbors_upto(edges, r, k2 - 1).len() && #[trigger] neighbors_upto(
                    edges,
                    r,
                    k2 - 1,
                )[j] == x;
            assert(neighbors_upto(edges, r, k2)[j] == x);
        }
    }
}

/// Every entry of a neighbor list names an adjacent node.
proof fn lemma_neighbors_sound(edges: Seq<GraphEdge>, r: int, k: int)
    requires
        0 <= k <= edges.len(),
    ensures
        forall|j: int|
            0 <= j < neighbors_upto(edges, r, k).len() ==> edges_adj(
                edges,
                r,
                #[trigger] neighbors_upto(edges, r, k)[j] as int,
            ),
    decreases k,
{
    if k > 0 {
        lemma_neighbors_sound(edges, r, k - 1);
        assert forall|j: int|
            0 <= j < neighbors_upto(edges, r, k).len() implies edges_adj(
            edges,
            r,
            #[trigger] neighbors_upto(edges, r, k)[j] as int,
        ) by {
            let prev = neighbors_upto(edges, r, k - 1);
            if j < prev.len() {
                assert(neighbors_upto(edges, r, k)[j] == prev[j]);
            }
        }
    }
}

/// Every node adjacent to `r` appears in `r`'s neighbor list.
proof fn lemma_neighbors_complete(edges: Seq<GraphEdge>, r: int, b: int)
    requires
        edges_adj(edges, r, b),
        forall|k: int| 0 <= k < edges.len() ==> (#[trigger] edges[k]).from < edges[k].to,
    ensures
        0 <= b,
        neighbors_of(edges, r).contains(b as usize),
{
    let k0 = choose|k0: int|
        0 <= k0 < edges.len() && ((edges[k0].from == r && edges[k0].to == b) || (edges[k0].from == b
            && edges[k0].to == r));
    let step = neighbors_upto(edges, r, k0 + 1);
    assert(step[step.len() - 1] == b as usize);
    assert(step.contains(b as usize));
    lemma_neighbors_extend(edges, r, k0 + 1, edges.len() as int);
}

/// The number of unvisited nodes among the first `k`.
spec fn unvisited_count(visited: Seq<bool>, k: int) -> int
    decreases k,
{
    if k <= 0 {
        0
    } else {
        unvisited_count(visited, k - 1) + if !visited[k - 1] {
            1int
        } else {
            0int
        }
    }
}

proof fn lemma_unvisited_nonneg(visited: Seq<bool>, k: int)
    ensures
        unvisited_count(visited, k) >= 0,
    decreases k,
{
    if k > 0 {
        lemma_unvisited_nonneg(visited, k - 1);
    }
}

/// Marking one unvisited node visited lowers the count by one.
proof fn lemma_unvisited_update(visited: Seq<bool>, i: int, k: int)
    requires
        0 <= i < visited.len(),
        !visited[i],
        0 <= k <= visited.len(),
    ensures
        unvisited_count(visited.update(i, true), k) == unvisited_count(visited, k) - if i < k {
            1int
        } else {
            0int
        },
    decreases k,
{
    if k > 0 {
        lemma_unvisited_update(visited, i, k - 1);
    }
}

/// Entry `m` of component `c` is node `v`.
pub open spec fn component_member(cs: Seq<Vec<usize>>, c: int, m: int, v: int) -> bool {
    0 <= c < cs.len() && 0 <= m < cs[c]@.len() && cs[c]@[m] == v
}

/// Node `v` stands in some component.
pub open spec fn in_some_component(cs: Seq<Vec<usize>>, v: int) -> bool {
    exists|c: int, m: int| component_member(cs, c, m, v)
}

/// Shape of a finished component list over graph `g`: components are
/// nonempty, disjoint, led by their smallest member, ordered by that
/// leader; every member is a node reachable from its leader, and no edge
/// leaves its component.  Together with coverage this pins the components
/// down as the maximal connected groups, found in ascending leader order.
pub open spec fn components_wf(cs: Seq<Vec<usize>>, g: ConnectivityGraph) -> bool {
    &&& forall|c: int, m: int|
        #![trigger cs[c]@[m]]
        0 <= c < cs.len() && 0 <= m < cs[c]@.len() ==> cs[c]@[m] < g.n_rows
    &&& forall|c: int| 0 <= c < cs.len() ==> (#[trigger] cs[c])@.len() > 0
    &&& forall|c: int, m: int|
        #![trigger cs[c]@[m]]
        0 <= c < cs.len() && 0 <= m < cs[c]@.len() ==> cs[c]@[0] <= cs[c]@[m]
    &&& forall|c1: int, c2: int|
        #![trigger cs[c1], cs[c2]]
        0 <= c1 < c2 < cs.len() ==> cs[c1]@[0] < cs[c2]@[0]
    &&& forall|c1: int, m1: int, c2: int, m2: int|
        #![trigger cs[c1]@[m1], cs[c2]@[m2]]
        component_member(cs, c1, m1, cs[c1]@[m1] as int) && component_member(
            cs,
            c2,
            m2,
            cs[c2]@[m2] as int,
        ) && cs[c1]@[m1] == cs[c2]@[m2] && 0 <= c1 < cs.len() && 0 <= c2 < cs.len() && 0 <= m1
            < cs[c1]@.len() && 0 <= m2 < cs[c2]@.len() ==> c1 == c2 && m1 == m2
    &&& forall|c: int, m: int|
        #![trigger cs[c]@[m]]
        0 <= c < cs.len() && 0 <= m < cs[c]@.len() ==> reachable(
            g,
            cs[c]@[0] as int,
            cs[c]@[m] as int,
        )
    &&& forall|c: int, m: int, b: int|
        0 <= c < cs.len() && 0 <= m < cs[c]@.len() && #[trigger] adj(g, cs[c]@[m] as int, b)
            ==> exists|m2: int| 0 <= m2 < cs[c]@.len() && cs[c]@[m2] == b
}

/// Mid-traversal state of one component search rooted at `root`: what the
/// visited flags mean, what the partial component and the pending stack
/// hold, and which facts about earlier rows still stand.
spec fn run_state(
    g: ConnectivityGraph,
    cs: Seq<Vec<usize>>,
    visited: Seq<bool>,
    comp: Seq<usize>,
    stack: Seq<usize>,
    root: int,
) -> bool {
    &&& 0 <= root < g.n_rows
    &&& visited.len() == g.n_rows
    &&& forall|v: int|
        0 <= v < g.n_rows ==> (visited[v] <==> (in_some_component(cs, v) || comp.contains(
            v as usize,
        )))
    &&& forall|m: int|
        0 <= m < comp.len() ==> (#[trigger] comp[m]) < g.n_rows && root <= comp[m]
            && !in_some_component(cs, comp[m] as int)
    &&& forall|m1: int, m2: int| 0 <= m1 < m2 < comp.len() ==> comp[m1] != comp[m2]
    &&& forall|m: int|
        0 <= m < comp.len() ==> reachable(g, root, (#[trigger] comp[m]) as int)
    &&& (comp.len() > 0 ==> comp[0] == root)
    &&& (comp.len() == 0 ==> stack =~= seq![root as usize] && !visited[root])
    &&& forall|s: int|
        0 <= s < stack.len() ==> (#[trigger] stack[s]) < g.n_rows && (stack[s] == root || exists|
            m: int,
        | 0 <= m < comp.len() && adj(g, comp[m] as int, stack[s] as int))
    &&& forall|v: int| 0 <= v < root ==> visited[v]
}

/// Every neighbor of a visited node is visited or still pending.
spec fn closure_pending(
    g: ConnectivityGraph,
    visited: Seq<bool>,
    stack: Seq<usize>,
) -> bool {
    forall|v: int, b: int|
        0 <= v < g.n_rows && visited[v] && #[trigger] adj(g, v, b) ==> 0 <= b < g.n_rows && (
        visited[b] || stack.contains(b as usize))
}

/// As `closure_pending`, except that node `cur`'s neighbors are still being
/// handed to the stack.
spec fn closure_pending_except(
    g: ConnectivityGraph,
    visited: Seq<bool>,
    stack: Seq<usize>,
    cur: int,
) -> bool {
    forall|v: int, b: int|
        0 <= v < g.n_rows && v != cur && visited[v] && #[trigger] adj(g, v, b) ==> 0 <= b
            < g.n_rows && (visited[b] || stack.contains(b as usize))
}

/// Membership survives a push, and the pushed element is a member.
proof fn lemma_push_contains(s: Seq<usize>, x: usize)
    ensures
        forall|y: usize| s.contains(y) ==> #[trigger] s.push(x).contains(y),
        s.push(x).contains(x),
{
    assert(s.push(x)[s.len() as int] == x);
    assert forall|y: usize| s.contains(y) implies #[trigger] s.push(x).contains(y) by {
        let i = choose|i: int| 0 <= i < s.len() && s[i] == y;
        assert(s.push(x)[i] == y);
    }
}

/// A member of a popped stack was a member before, and an old member is
/// either still there or was the popped element.
proof fn lemma_pop_contains(s: Seq<usize>)
    requires
        s.len() > 0,
    ensures
        forall|y: usize| #[trigger]
            s.contains(y) ==> (s.subrange(0, s.len() - 1).contains(y) || y == s[s.len() - 1]),
        forall|y: usize| #[trigger] s.subrange(0, s.len() - 1).contains(y) ==> s.contains(y),
{
    assert forall|y: usize| #[trigger]
        s.contains(y) implies (s.subrange(0, s.len() - 1).contains(y) || y == s[s.len()
        - 1]) by {
        let i = choose|i: int| 0 <= i < s.len() && s[i] == y;
        if i < s.len() - 1 {
            assert(s.subrange(0, s.len() - 1)[i] == y);
        }
    }
    assert forall|y: usize| #[trigger]
        s.subrange(0, s.len() - 1).contains(y) implies s.contains(y) by {
        let i = choose|i: int|
            0 <= i < s.len() - 1 && #[trigger] s.subrange(0, s.len() - 1)[i] == y;
        assert(s[i] == y);
    }
}

impl ConnectivityGraph {
    /// Partition the nodes into their connected components by iterative
    /// depth-first traversal with an explicit stack.  Each node lands in
    /// exactly one component; a component holds everything reachable from
    /// its first member and nothing an edge could leave it for; components
    /// come in ascending order of their smallest member, members in
    /// visitation order.
    pub fn connected_components(&self) -> (components: Vec<Vec<usize>>)
        requires
            self.wf(),
        ensures
            components_wf(components@, *self),
            forall|i: int| 0 <= i < self.n_rows ==> #[trigger] in_some_component(components@, i),
    {
        let n = self.n_rows;
        let mut visited: Vec<bool> = vec![false; n];
        let mut components: Vec<Vec<usize>> = Vec::new();
        let mut root: usize = 0;
        while root < n
            invariant
                self.wf(),
                n == self.n_rows,
                visited@.len() == n,
                components_wf(components@, *self),
                forall|v: int|
                    0 <= v < n ==> (visited@[v] <==> in_some_component(components@, v)),
                forall|v: int| 0 <= v < root ==> visited@[v],
                forall|c: int|
                    0 <= c < components@.len() ==> (#[trigger] components@[c])@[0] < root,
                closure_pending(*self, visited@, Seq::<usize>::empty()),
            decreases n - root,
        {
            if !visited[root] {
                let mut comp: Vec<usize> = Vec::new();
                let mut stack: Vec<usize> = Vec::new();
                stack.push(root);
                proof {
                    assert(stack@ =~= seq![root]);
                    assert(run_state(*self, components@, visited@, comp@, stack@, root as int));
                    assert forall|v: int, b: int|
                        0 <= v < n && visited@[v] && #[trigger] adj(*self, v, b) implies 0 <= b < n
                        && (visited@[b] || stack@.contains(b as usize)) by {
                        assert(closure_pending(*self, visited@, Seq::<usize>::empty()));
                        assert(!Seq::<usize>::empty().contains(b as usize));
                    }
                }
                while stack.len() > 0
                    invariant
                        self.wf(),
                        n == self.n_rows,
                        components_wf(components@, *self),
                        run_state(*self, components@, visited@, comp@, stack@, root as int),
                        closure_pending(*self, visited@, stack@),
                    decreases unvisited_count(visited@, n as int), stack@.len(),
                {
                    proof {
                        lemma_unvisited_nonneg(visited@, n as int);
                    }
                    let ghost old_stack = stack@;
                    let cur = match stack.pop() {
                        Some(c) => c,
                        None => {
                            proof {
                                assert(false);
                            }
                            0
                        },
                    };
                    proof {
                        lemma_pop_contains(old_stack);
                    }
                    if !visited[cur] {
                        proof {
                            if cur as int == root as int {
                                lemma_reachable_refl(*self, root as int);
                            } else {
                                assert(old_stack[old_stack.len() - 1] == cur);
                                let m = choose|m: int|
                                    0 <= m < comp@.len() && adj(*self, comp@[m] as int, cur as int);
                                lemma_reachable_step(
                                    *self,
                                    root as int,
                                    comp@[m] as int,
                                    cur as int,
                                );
                            }
                            assert(reachable(*self, root as int, cur as int));
                        }
                        let ghost old_visited = visited@;
                        let ghost old_comp = comp@;
                        visited.set(cur, true);
                        comp.push(cur);
                        proof {
                            lemma_unvisited_update(old_visited, cur as int, n as int);
                            lemma_unvisited_nonneg(visited@, n as int);
                            lemma_push_contains(old_comp, cur);
                            if old_comp.len() == 0 {
                                assert(old_stack =~= seq![root]);
                                assert(cur == root);
                            }
                            // what the visited flags now mean
                            assert forall|v: int|
                                0 <= v < n implies (visited@[v] <==> (in_some_component(
                                components@,
                                v,
                            ) || comp@.contains(v as usize))) by {
                                if v == cur as int {
                                    assert(comp@[old_comp.len() as int] == cur);
                                } else {
                                    assert(visited@[v] == old_visited[v]);
                                    if comp@.contains(v as usize) {
                                        let m = choose|m: int|
                                            0 <= m < comp@.len() && comp@[m] == v as usize;
                                        assert(m < old_comp.len());
                                        assert(old_comp[m] == v as usize);
                                    }
                                }
                            }
                            // pending stack entries keep their justification
                            assert forall|s: int|
                                0 <= s < stack@.len() implies (#[trigger] stack@[s]) < n && (
                            stack@[s] == root || exists|m: int|
                                0 <= m < comp@.len() && adj(
                                    *self,
                                    comp@[m] as int,
                                    stack@[s] as int,
                                )) by {
                                assert(stack@[s] == old_stack[s]);
                                if old_stack[s] != root {
                                    let m = choose|m: int|
                                        0 <= m < old_comp.len() && adj(
                                            *self,
                                            old_comp[m] as int,
                                            old_stack[s] as int,
                                        );
                                    assert(comp@[m] == old_comp[m]);
                                }
                            }
                        }
                        let node = &self.nodes[cur];
                        let ghost nbs = node.connected_to@;
                        proof {
                            assert(nbs == neighbors_of(self.edges@, cur as int));
                            lemma_neighbors_sound(
                                self.edges@,
                                cur as int,
                                self.edges@.len() as int,
                            );
                            assert forall|jj: int|
                                0 <= jj < nbs.len() implies edges_adj(
                                self.edges@,
                                cur as int,
                                #[trigger] nbs[jj] as int,
                            ) && nbs[jj] < n by {
                                assert(edges_adj(self.edges@, cur as int, nbs[jj] as int));
                                let k = choose|k: int|
                                    0 <= k < self.edges@.len() && ((self.edges@[k].from
                                        == cur as int && self.edges@[k].to == nbs[jj] as int) || (
                                    self.edges@[k].from == nbs[jj] as int && self.edges@[k].to
                                        == cur as int));
                                assert(self.edges@[k].from < self.edges@[k].to < n);
                            }
                            // the popped slot held cur, which is now visited
                            assert forall|v: int, b: int|
                                0 <= v < n && v != cur as int && visited@[v] && #[trigger] adj(
                                *self,
                                v,
                                b,
                            ) implies 0 <= b < n && (visited@[b] || stack@.contains(
                                b as usize,
                            )) by {
                                if !visited@[b] {
                                    assert(old_visited[v]);
                                    assert(!old_visited[b]);
                                    assert(old_stack.contains(b as usize));
                                    if b == cur as int {
                                        assert(visited@[b]);
                                    } else {
                                        assert(stack@.contains(b as usize) || b as usize
                                            == old_stack[old_stack.len() - 1]);
                                    }
                                }
                            }
                        }
                        let mut j: usize = 0;
                        while j < node.connected_to.len()
                            invariant
                                self.wf(),
                                n == self.n_rows,
                                components_wf(components@, *self),
                                run_state(
                                    *self,
                                    components@,
                                    visited@,
                                    comp@,
                                    stack@,
                                    root as int,
                                ),
                                closure_pending_except(*self, visited@, stack@, cur as int),
                                cur < n,
                                visited@[cur as int],
                                comp@.contains(cur),
                                nbs == node.connected_to@,
                                j <= nbs.len(),
                                forall|jj: int|
                                    0 <= jj < nbs.len() ==> edges_adj(
                                        self.edges@,
                                        cur as int,
                                        #[trigger] nbs[jj] as int,
                                    ) && nbs[jj] < n,
                                forall|jj: int|
                                    0 <= jj < j ==> visited@[#[trigger] nbs[jj] as int]
                                        || stack@.contains(nbs[jj]),
                            decreases nbs.len() - j,
                        {
                            let nb = node.connected_to[j];
                            if !visited[nb] {
                                let ghost pre = stack@;
                                stack.push(nb);
                                proof {
                                    lemma_push_contains(pre, nb);
                                    let m = choose|m: int|
                                        0 <= m < comp@.len() && comp@[m] == cur;
                                    assert(adj(*self, comp@[m] as int, nb as int));
                                    assert forall|s: int|
                                        0 <= s < stack@.len() implies (#[trigger] stack@[s]) < n
                                        && (stack@[s] == root || exists|m2: int|
                                        0 <= m2 < comp@.len() && adj(
                                            *self,
                                            comp@[m2] as int,
                                            stack@[s] as int,
                                        )) by {
                                        if s < pre.len() {
                                            assert(stack@[s] == pre[s]);
                                        } else {
                                            assert(stack@[s] == nb);
                                        }
                                    }
                                }
                            }
                            j = j + 1;
                        }
                        proof {
                            // every neighbor of cur has now been seen to or queued
                            assert forall|v: int, b: int|
                                0 <= v < n && visited@[v] && #[trigger] adj(*self, v, b) implies 0
                                <= b < n && (visited@[b] || stack@.contains(b as usize)) by {
                                if v == cur as int {
                                    lemma_neighbors_complete(self.edges@, cur as int, b);
                                    let jj = choose|jj: int|
                                        0 <= jj < nbs.len() && #[trigger] nbs[jj] == b as usize;
                                    assert(visited@[nbs[jj] as int] || stack@.contains(nbs[jj]));
                                }
                            }
                        }
                    } else {
                        proof {
                            if comp@.len() == 0 {
                                assert(old_stack =~= seq![root]);
                                assert(cur == root);
                                assert(false);
                            }
                            assert forall|v: int, b: int|
                                0 <= v < n && visited@[v] && #[trigger] adj(*self, v, b) implies 0
                                <= b < n && (visited@[b] || stack@.contains(b as usize)) by {
                                if !visited@[b] {
                                    assert(old_stack.contains(b as usize));
                                    if b as usize == old_stack[old_stack.len() - 1] {
                                        assert(visited@[b]);
                                    } else {
                                        assert(stack@.contains(b as usize));
                                    }
                                }
                            }
                        }
                    }
                }
                // the stack has drained: the component is closed and done
                proof {
                    assert(comp@.len() > 0);
                }
                let ghost old_components = components@;
                let ghost done = comp@;
                components.push(comp);
                proof {
                    assert(components@.len() == old_components.len() + 1);
                    assert(components@[old_components.len() as int]@ == done);
                    assert(forall|c: int|
                        0 <= c < old_components.len() ==> #[trigger] components@[c]
                            == old_components[c]);
                    // a node is in the new list exactly when it was in the
                    // old one or belongs to the finished component
                    assert forall|v: int|
                        0 <= v < n implies (in_some_component(components@, v) <==> (
                    in_some_component(old_components, v) || done.contains(v as usize))) by {
                        if in_some_component(components@, v) {
                            let (c, m) = choose|c: int, m: int|
                                component_member(components@, c, m, v);
                            if c < old_components.len() {
                                assert(component_member(old_components, c, m, v));
                            } else {
                                assert(done[m] == v as usize);
                            }
                        }
                        if in_some_component(old_components, v) {
                            let (c, m) = choose|c: int, m: int|
                                component_member(old_components, c, m, v);
                            assert(component_member(components@, c, m, v));
                        }
                        if done.contains(v as usize) {
                            let m = choose|m: int| 0 <= m < done.len() && done[m] == v as usize;
                            assert(component_member(components@, old_components.len() as int, m, v));
                        }
                    }
                    // an edge cannot leave the finished component: its far
                    // end is visited, and an older component would have
                    // claimed the near end too
                    assert forall|m: int, b: int|
                        0 <= m < done.len() && #[trigger] adj(*self, done[m] as int, b) implies
                        exists|m2: int| 0 <= m2 < done.len() && done[m2] == b by {
                        assert(visited@[b]);
                        if !done.contains(b as usize) {
                            assert(in_some_component(old_components, b));
                            let (c, m2) = choose|c: int, m2: int|
                                component_member(old_components, c, m2, b);
                            assert(adj(*self, b, done[m] as int));
                            assert(exists|m3: int|
                                0 <= m3 < old_components[c]@.len() && old_components[c]@[m3]
                                    == done[m]);
                            assert(in_some_component(old_components, done[m] as int));
                            assert(false);
                        } else {
                            let m2 = choose|m2: int|
                                0 <= m2 < done.len() && done[m2] == b as usize;
                        }
                    }
                    // the full component list keeps its shape
                    assert forall|c: int, m: int|
                        #![trigger components@[c]@[m]]
                        0 <= c < components@.len() && 0 <= m < components@[c]@.len() implies
                        components@[c]@[m] < n && components@[c]@[0] <= components@[c]@[m]
                            && reachable(
                            *self,
                            components@[c]@[0] as int,
                            components@[c]@[m] as int,
                        ) by {
                        if c < old_components.len() {
                            assert(components@[c]@ == old_components[c]@);
                        } else {
                            assert(components@[c]@ == done);
                        }
                    }
                    assert forall|c1: int, c2: int|
                        #![trigger components@[c1], components@[c2]]
                        0 <= c1 < c2 < components@.len() implies components@[c1]@[0]
                        < components@[c2]@[0] by {
                        if c2 < old_components.len() {
                            assert(components@[c1]@ == old_components[c1]@);
                            assert(components@[c2]@ == old_components[c2]@);
                        } else {
                            assert(components@[c2]@ == done);
                            assert(components@[c1]@ == old_components[c1]@);
                            assert(old_components[c1]@[0] < root);
                            assert(done[0] == root);
                        }
                    }
                    assert forall|c1: int, m1: int, c2: int, m2: int|
                        #![trigger components@[c1]@[m1], components@[c2]@[m2]]
                        component_member(components@, c1, m1, components@[c1]@[m1] as int)
                            && component_member(
                            components@,
                            c2,
                            m2,
                            components@[c2]@[m2] as int,
                        ) && components@[c1]@[m1] == components@[c2]@[m2] && 0 <= c1
                            < components@.len() && 0 <= c2 < components@.len() && 0 <= m1
                            < components@[c1]@.len() && 0 <= m2 < components@[c2]@.len() implies c1
                        == c2 && m1 == m2 by {
                        let v = components@[c1]@[m1];
                        if c1 < old_components.len() && c2 < old_components.len() {
                            assert(component_member(old_components, c1, m1, v as int));
                            assert(component_member(old_components, c2, m2, v as int));
                        } else if c1 < old_components.len() && c2 >= old_components.len() {
                            assert(in_some_component(old_components, v as int) ==> false);
                            assert(component_member(old_components, c1, m1, v as int));
                            assert(done[m2] == v);
                            assert(false);
                        } else if c1 >= old_components.len() && c2 < old_components.len() {
                            assert(component_member(old_components, c2, m2, v as int));
                            assert(done[m1] == v);
                            assert(false);
                        } else {
                            assert(done[m1] == v && done[m2] == v);
                        }
                    }
                    // every closure fact of the older components carries over
                    assert forall|c: int, m: int, b: int|
                        0 <= c < components@.len() && 0 <= m < components@[c]@.len()
                            && #[trigger] adj(*self, components@[c]@[m] as int, b) implies exists|
                        m2: int,
                    | 0 <= m2 < components@[c]@.len() && components@[c]@[m2] == b by {
                        if c < old_components.len() {
                            assert(components@[c]@ == old_components[c]@);
                        } else {
                            assert(components@[c]@ == done);
                        }
                    }
                }
            }
            root = root + 1;
        }
        components
    }
}

/// A row with no stored entry owns no column.
proof fn lemma_no_entries_no_col(d: CooData, r: int)
    requires
        forall|i: int| 0 <= i < d.rows.len() ==> !(!d.vnull[i] && d.rows[i] == r),
    ensures
        forall|c: int| !d.has_col(r, c),
{
    assert forall|c: int| !d.has_col(r, c) by {
        if d.has_col(r, c) {
            let e = choose|e: int|
                0 <= e < d.rows.len() && !d.vnull[e] && d.rows[e] == r && d.cols[e] == c;
        }
    }
}

/// A row that owns no column shares none with anybody.
proof fn lemma_no_col_no_shared(d: CooData, r: int, x: int, k: int)
    requires
        forall|c: int| !d.has_col(r, c),
        0 <= k,
    ensures
        d.shared_upto(r, x, k) == 0,
        d.shared_upto(x, r, k) == 0,
    decreases k,
{
    if k > 0 {
        lemma_no_col_no_shared(d, r, x, k - 1);
    }
}

/// A row no edge touches has an empty neighbor list.
proof fn lemma_no_incidence_no_neighbors(edges: Seq<GraphEdge>, r: int, k: int)
    requires
        forall|e: int|
            0 <= e < edges.len() ==> (#[trigger] edges[e]).from != r && edges[e].to != r,
        0 <= k <= edges.len(),
    ensures
        neighbors_upto(edges, r, k).len() == 0,
    decreases k,
{
    if k > 0 {
        lemma_no_incidence_no_neighbors(edges, r, k - 1);
    }
}

/// From an untouched row nothing else can be reached.
proof fn lemma_unadjacent_unreachable(g: ConnectivityGraph, r: int, b: int, n: nat)
    requires
        forall|bb: int| !adj(g, r, bb),
    ensures
        reachable_within(g, r, b, n) ==> b == r,
    decreases n,
{
    if reachable_within(g, r, b, n) && b != r {
        let m = choose|m: int| #![auto] adj(g, m, b) && reachable_within(g, r, m, (n - 1) as nat);
        lemma_unadjacent_unreachable(g, r, m, (n - 1) as nat);
        assert(adj(g, r, b));
    }
}

/// A row with no stored entry is an isolated node: degree zero, an empty
/// neighbor list, no incident edge, and a singleton reachable set — so in
/// any component list it can only stand alone.
pub proof fn lemma_isolated_row(g: ConnectivityGraph, d: CooData, r: int)
    requires
        g.wf(),
        graph_models(g, d),
        0 <= r < d.n_rows,
        forall|i: int| 0 <= i < d.rows.len() ==> !(!d.vnull[i] && d.rows[i] == r),
    ensures
        g.nodes@[r].degree == 0,
        g.nodes@[r].connected_to@.len() == 0,
        forall|b: int| !adj(g, r, b),
        forall|b: int| #[trigger] reachable(g, r, b) ==> b == r,
{
    lemma_no_entries_no_col(d, r);
    assert forall|k: int|
        0 <= k < g.edges@.len() implies (#[trigger] g.edges@[k]).from != r && g.edges@[k].to
        != r by {
        if g.edges@[k].from == r {
            lemma_no_col_no_shared(d, r, g.edges@[k].to as int, d.n_cols);
        }
        if g.edges@[k].to == r {
            lemma_no_col_no_shared(d, r, g.edges@[k].from as int, d.n_cols);
        }
    }
    lemma_no_incidence_no_neighbors(g.edges@, r, g.edges@.len() as int);
    assert(g.nodes@[r].connected_to@ == neighbors_of(g.edges@, r));
    assert forall|b: int| !adj(g, r, b) by {
        if adj(g, r, b) {
            let k = choose|k: int|
                0 <= k < g.edges@.len() && ((g.edges@[k].from == r && g.edges@[k].to == b) || (
                g.edges@[k].from == b && g.edges@[k].to == r));
        }
    }
    assert forall|b: int| #[trigger] reachable(g, r, b) implies b == r by {
        let n = choose|n: nat| reachable_within(g, r, b, n);
        lemma_unadjacent_unreachable(g, r, b, n);
    }
}

/// Rank of a node in the hub ordering: the higher the degree the earlier,
/// ties broken by the smaller id.
spec fn hub_key(g: ConnectivityGraph, i: int) -> (usize, usize) {
    ((usize::MAX - g.nodes@[i].degree) as usize, i as usize)
}

/// Some entry of the list is the node with id `i`.
pub open spec fn covers_node(r: Seq<&GraphNode>, i: int) -> bool {
    exists|j: int| 0 <= j < r.len() && r[j].id == i
}

impl ConnectivityGraph {
    /// The `top_k` best-connected nodes: sorted by degree descending, ties
    /// by ascending id; at most `top_k` of them, and all of them when
    /// `top_k` covers the node count.  Every node left out ranks at or
    /// after everything returned.
    pub fn get_hubs(&self, top_k: usize) -> (r: Vec<&GraphNode>)
        requires
            self.wf(),
        ensures
            r@.len() == if top_k <= self.nodes@.len() {
                top_k as int
            } else {
                self.nodes@.len() as int
            },
            forall|j: int|
                0 <= j < r@.len() ==> (#[trigger] r@[j]).id < self.nodes@.len() && *r@[j]
                    == self.nodes@[r@[j].id as int],
            forall|j1: int, j2: int|
                0 <= j1 < j2 < r@.len() ==> ((#[trigger] r@[j1]).degree > (#[trigger] r@[j2]).degree
                    || (r@[j1].degree == r@[j2].degree && r@[j1].id < r@[j2].id)),
            forall|i: int|
                #![trigger self.nodes@[i]]
                0 <= i < self.nodes@.len() && !(exists|j: int|
                    0 <= j < r@.len() && (#[trigger] r@[j]).id == i) ==> forall|j: int|
                    0 <= j < r@.len() ==> ((#[trigger] r@[j]).degree > self.nodes@[i].degree || (
                    r@[j].degree == self.nodes@[i].degree && r@[j].id < i)),
            top_k >= self.nodes@.len() ==> forall|i: int|
                0 <= i < self.nodes@.len() ==> #[trigger] covers_node(r@, i),
    {
        let n = self.nodes.len();
        let mut pairs: Vec<(usize, usize)> = Vec::new();
        let mut i: usize = 0;
        while i < n
            invariant
                self.wf(),
                i <= n,
                n == self.nodes@.len(),
                pairs@.len() == i,
                forall|q: int| 0 <= q < i ==> #[trigger] pairs@[q] == hub_key(*self, q),
            decreases n - i,
        {
            let d = self.nodes[i].degree;
            pairs.push((usize::MAX - d, i));
            i = i + 1;
        }
        let ghost built = pairs@;
        proof {
            assert forall|q1: int, q2: int|
                0 <= q1 < q2 < built.len() implies built[q1].1 != built[q2].1 by {
                assert(built[q1] == hub_key(*self, q1));
                assert(built[q2] == hub_key(*self, q2));
            }
        }
        crate::coo::ranked_prefix(&mut pairs, top_k);
        let mut out: Vec<&GraphNode> = Vec::new();
        let mut q: usize = 0;
        while q < pairs.len()
            invariant
                self.wf(),
                q <= pairs@.len(),
                out@.len() == q,
                n == self.nodes@.len(),
                built.len() == n,
                forall|q0: int| 0 <= q0 < n ==> #[trigger] built[q0] == hub_key(*self, q0),
                forall|j: int| 0 <= j < pairs@.len() ==> built.contains(#[trigger] pairs@[j]),
                forall|j: int|
                    0 <= j < q ==> (#[trigger] out@[j]).id == pairs@[j].1 && out@[j].id < n
                        && *out@[j] == self.nodes@[pairs@[j].1 as int],
            decreases pairs@.len() - q,
        {
            proof {
                assert(built.contains(pairs@[q as int]));
                let w = choose|w: int| 0 <= w < built.len() && built[w] == pairs@[q as int];
                assert(built[w] == hub_key(*self, w));
                assert(pairs@[q as int].1 < n);
            }
            let idx = pairs[q].1;
            out.push(&self.nodes[idx]);
            q = q + 1;
        }
        proof {
            assert forall|j: int|
                0 <= j < out@.len() implies pairs@[j] == hub_key(
                *self,
                (#[trigger] out@[j]).id as int,
            ) by {
                assert(built.contains(pairs@[j]));
                let w = choose|w: int| 0 <= w < built.len() && built[w] == pairs@[j];
            }
            assert forall|j1: int, j2: int|
                0 <= j1 < j2 < out@.len() implies ((#[trigger] out@[j1]).degree
                > (#[trigger] out@[j2]).degree || (out@[j1].degree == out@[j2].degree
                && out@[j1].id < out@[j2].id)) by {
                assert(crate::coo::pair_le(pairs@[j1], pairs@[j2]));
                assert(pairs@[j1].1 != pairs@[j2].1);
            }
            assert forall|i0: int|
                #![trigger self.nodes@[i0]]
                0 <= i0 < n && !(exists|j: int|
                    0 <= j < out@.len() && (#[trigger] out@[j]).id == i0) implies forall|j: int|
                0 <= j < out@.len() ==> ((#[trigger] out@[j]).degree > self.nodes@[i0].degree || (
                out@[j].degree == self.nodes@[i0].degree && out@[j].id < i0)) by {
                assert(built[i0] == hub_key(*self, i0));
                assert(built.contains(hub_key(*self, i0)));
                if pairs@.contains(hub_key(*self, i0)) {
                    let q0 = choose|q0: int|
                        0 <= q0 < pairs@.len() && pairs@[q0] == hub_key(*self, i0);
                    assert(out@[q0].id == i0);
                    assert(false);
                } else {
                    assert forall|j: int|
                        0 <= j < out@.len() implies ((#[trigger] out@[j]).degree
                        > self.nodes@[i0].degree || (out@[j].degree == self.nodes@[i0].degree
                        && out@[j].id < i0)) by {
                        assert(crate::coo::pair_le(pairs@[j], hub_key(*self, i0)));
                        assert(pairs@[j].1 != i0);
                    }
                }
            }
            if top_k >= n {
                assert forall|i0: int| 0 <= i0 < n implies #[trigger] covers_node(out@, i0) by {
                    assert(built[i0] == hub_key(*self, i0));
                    assert(built.contains(hub_key(*self, i0)));
                    assert(pairs@.contains(hub_key(*self, i0)));
                    let q0 = choose|q0: int|
                        0 <= q0 < pairs@.len() && pairs@[q0] == hub_key(*self, i0);
                    assert(out@[q0].id == i0);
                }
            }
        }
        out
    }

    /// The nodes with no incident edge, in ascending id order: exactly the
    /// nodes whose degree is zero.
    pub fn get_isolated_nodes(&self) -> (r: Vec<&GraphNode>)
        requires
            self.wf(),
        ensures
            forall|j: int|
                0 <= j < r@.len() ==> (#[trigger] r@[j]).degree == 0 && r@[j].id
                    < self.nodes@.len() && *r@[j] == self.nodes@[r@[j].id as int],
            forall|j1: int, j2: int| 0 <= j1 < j2 < r@.len() ==> (#[trigger] r@[j1]).id
                < (#[trigger] r@[j2]).id,
            forall|i: int|
                0 <= i < self.nodes@.len() && (#[trigger] self.nodes@[i]).degree == 0 ==> exists|
                    j: int,
                |
                    0 <= j < r@.len() && (#[trigger] r@[j]).id == i,
    {
        let n = self.nodes.len();
        let mut out: Vec<&GraphNode> = Vec::new();
        let mut i: usize = 0;
        while i < n
            invariant
                self.wf(),
                i <= n,
                n == self.nodes@.len(),
                forall|j: int|
                    0 <= j < out@.len() ==> (#[trigger] out@[j]).degree == 0 && out@[j].id < i
                        && *out@[j] == self.nodes@[out@[j].id as int],
                forall|j1: int, j2: int| 0 <= j1 < j2 < out@.len() ==> (#[trigger] out@[j1]).id
                    < (#[trigger] out@[j2]).id,
                forall|k: int|
                    0 <= k < i && (#[trigger] self.nodes@[k]).degree == 0 ==> exists|j: int|
                        0 <= j < out@.len() && (#[trigger] out@[j]).id == k,
            decreases n - i,
        {
            if self.nodes[i].degree == 0 {
                let ghost prev = out@;
                out.push(&self.nodes[i]);
                proof {
                    assert forall|k: int|
                        0 <= k <= i && (#[trigger] self.nodes@[k]).degree == 0 implies exists|
                        j: int,
                    |
                        0 <= j < out@.len() && (#[trigger] out@[j]).id == k by {
                        if k == i {
                            assert(out@[prev.len() as int].id == i);
                        } else {
                            let j = choose|j: int| 0 <= j < prev.len() && prev[j].id == k;
                            assert(out@[j].id == k);
                        }
                    }
                }
            }
            i = i + 1;
        }
        out
    }
}

/// Build the connectivity graph of validated coordinate data: one node per
/// row; one edge per unordered pair of rows sharing at least one column, in
/// ascending `(from, to)` order, weighted by the shared-column count; every
/// neighbor list and degree read off the edge list.
pub fn build_graph(
    rows: &Vec<u32>,
    cols: &Vec<u32>,
    vnull: &Vec<bool>,
    n_rows: usize,
    n_cols: usize,
) -> (g: ConnectivityGraph)
    requires
        coo_data_of(rows@, cols@, vnull@, n_rows as int, n_cols as int).wf(),
    ensures
        g.wf(),
        graph_models(g, coo_data_of(rows@, cols@, vnull@, n_rows as int, n_cols as int)),
{
    let ghost d = coo_data_of(rows@, cols@, vnull@, n_rows as int, n_cols as int);
    // presence matrix, one boolean row per matrix row
    let mut presence: Vec<Vec<bool>> = Vec::new();
    let mut r: usize = 0;
    while r < n_rows
        invariant
            r <= n_rows,
            d == coo_data_of(rows@, cols@, vnull@, n_rows as int, n_cols as int),
            d.wf(),
            presence@.len() == r,
            forall|rr: int| 0 <= rr < r ==> (#[trigger] presence@[rr])@.len() == n_cols,
            forall|rr: int, c: int|
                0 <= rr < r && 0 <= c < n_cols ==> presence@[rr]@[c] == d.has_col(rr, c),
        decreases n_rows - r,
    {
        let line = presence_row(rows, cols, vnull, r, n_cols, Ghost(d));
        presence.push(line);
        r = r + 1;
    }
    // one edge per pair of rows with a shared column, in ascending order
    let mut edges: Vec<GraphEdge> = Vec::new();
    let mut r1: usize = 0;
    while r1 < n_rows
        invariant
            r1 <= n_rows,
            d == coo_data_of(rows@, cols@, vnull@, n_rows as int, n_cols as int),
            d.wf(),
            presence@.len() == n_rows,
            forall|rr: int| 0 <= rr < n_rows ==> (#[trigger] presence@[rr])@.len() == n_cols,
            forall|rr: int, c: int|
                0 <= rr < n_rows && 0 <= c < n_cols ==> presence@[rr]@[c] == d.has_col(rr, c),
            forall|k: int|
                0 <= k < edges@.len() ==> (#[trigger] edges@[k]).from < edges@[k].to < n_rows
                    && edges@[k].weight == d.shared(
                    edges@[k].from as int,
                    edges@[k].to as int,
                ) && edges@[k].weight > 0,
            forall|k1: int, k2: int|
                0 <= k1 < k2 < edges@.len() ==> edge_lt(edges@[k1], edges@[k2]),
            forall|k: int| 0 <= k < edges@.len() ==> (#[trigger] edges@[k]).from < r1,
            forall|a: int, b: int|
                0 <= a < b < n_rows && a < r1 && #[trigger] d.shared(a, b) > 0 ==> exists|k: int|
                    0 <= k < edges@.len() && (#[trigger] edges@[k]).from == a && edges@[k].to == b,
        decreases n_rows - r1,
    {
        let mut r2: usize = r1 + 1;
        while r2 < n_rows
            invariant
                r1 < r2 <= n_rows || (r2 == r1 + 1 && r2 >= n_rows),
                d == coo_data_of(rows@, cols@, vnull@, n_rows as int, n_cols as int),
                d.wf(),
                presence@.len() == n_rows,
                forall|rr: int| 0 <= rr < n_rows ==> (#[trigger] presence@[rr])@.len() == n_cols,
                forall|rr: int, c: int|
                    0 <= rr < n_rows && 0 <= c < n_cols ==> presence@[rr]@[c] == d.has_col(rr, c),
                forall|k: int|
                    0 <= k < edges@.len() ==> (#[trigger] edges@[k]).from < edges@[k].to < n_rows
                        && edges@[k].weight == d.shared(
                        edges@[k].from as int,
                        edges@[k].to as int,
                    ) && edges@[k].weight > 0,
                forall|k1: int, k2: int|
                    0 <= k1 < k2 < edges@.len() ==> edge_lt(edges@[k1], edges@[k2]),
                forall|k: int|
                    0 <= k < edges@.len() ==> (#[trigger] edges@[k]).from < r1 || (edges@[k].from
                        == r1 && edges@[k].to < r2),
                forall|a: int, b: int|
                    0 <= a < b < n_rows && (a < r1 || (a == r1 && b < r2)) && #[trigger] d.shared(
                        a,
                        b,
                    ) > 0 ==> exists|k: int|
                        0 <= k < edges@.len() && (#[trigger] edges@[k]).from == a && edges@[k].to
                            == b,
            decreases n_rows - r2,
        {
            let w = count_and(&presence[r1], &presence[r2]);
            proof {
                lemma_and_is_shared(
                    d,
                    presence@[r1 as int]@,
                    presence@[r2 as int]@,
                    r1 as int,
                    r2 as int,
                    d.n_cols,
                );
            }
            if w > 0 {
                let ghost before = edges@;
                edges.push(GraphEdge { from: r1, to: r2, weight: w });
                proof {
                    assert forall|a: int, b: int|
                        0 <= a < b < n_rows && (a < r1 || (a == r1 && b < r2 + 1))
                            && #[trigger] d.shared(a, b) > 0 implies exists|k: int|
                        0 <= k < edges@.len() && (#[trigger] edges@[k]).from == a && edges@[k].to
                            == b by {
                        if a == r1 as int && b == r2 as int {
                            assert(edges@[before.len() as int].from == a && edges@[before.len() as int].to
                                == b);
                        } else {
                            let k = choose|k: int|
                                0 <= k < before.len() && (#[trigger] before[k]).from == a
                                    && before[k].to == b;
                            assert(edges@[k].from == a && edges@[k].to == b);
                        }
                    }
                }
            } else {
                proof {
                    assert forall|a: int, b: int|
                        0 <= a < b < n_rows && (a < r1 || (a == r1 && b < r2 + 1))
                            && #[trigger] d.shared(a, b) > 0 implies exists|k: int|
                        0 <= k < edges@.len() && (#[trigger] edges@[k]).from == a && edges@[k].to
                            == b by {
                        assert(!(a == r1 as int && b == r2 as int));
                    }
                }
            }
            r2 = r2 + 1;
        }
        r1 = r1 + 1;
    }
    // one node per row, its neighbors and degree read off the edge list
    let mut nodes: Vec<GraphNode> = Vec::new();
    let mut r: usize = 0;
    while r < n_rows
        invariant
            r <= n_rows,
            nodes@.len() == r,
            forall|rr: int|
                0 <= rr < r ==> (#[trigger] nodes@[rr]).id == rr && nodes@[rr].connected_to@
                    == neighbors_of(edges@, rr) && nodes@[rr].degree
                    == nodes@[rr].connected_to@.len(),
        decreases n_rows - r,
    {
        let mut neighbors: Vec<usize> = Vec::new();
        let mut k: usize = 0;
        while k < edges.len()
            invariant
                k <= edges@.len(),
                neighbors@ == neighbors_upto(edges@, r as int, k as int),
            decreases edges@.len() - k,
        {
            if edges[k].from == r {
                neighbors.push(edges[k].to);
            } else if edges[k].to == r {
                neighbors.push(edges[k].from);
            }
            k = k + 1;
        }
        let degree = neighbors.len();
        nodes.push(GraphNode { id: r, degree, connected_to: neighbors });
        r = r + 1;
    }
    ConnectivityGraph { nodes, edges, n_rows, n_cols }
}

} // verus!
