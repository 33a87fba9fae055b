use javelin::coo::{ColumnData, CooView};
use javelin::graph::ConnectivityGraph;
use javelin::schema::{BatchSchema, ColumnType, SchemaError};

fn coo_schema(metadata: Vec<(String, String)>) -> BatchSchema {
    BatchSchema {
        names: vec!["row".to_string(), "col".to_string(), "value".to_string()],
        types: vec![ColumnType::UInt32, ColumnType::UInt32, ColumnType::Float64],
        metadata,
    }
}

fn coo_columns(rows: Vec<u32>, cols: Vec<u32>, value_nulls: Vec<bool>) -> Vec<ColumnData> {
    let n = rows.len();
    vec![
        ColumnData::UInt32 { values: rows, nulls: vec![false; n] },
        ColumnData::UInt32 { values: cols, nulls: vec![false; n] },
        ColumnData::Float64 { nulls: value_nulls },
    ]
}

#[test]
fn test_connectivity_graph() {
    let schema = coo_schema(Vec::new());
    let columns = coo_columns(vec![0, 0, 1, 1, 2], vec![0, 1, 1, 2, 2], vec![false; 5]);
    let graph = ConnectivityGraph::from_coo_batch(&schema, &columns).unwrap();

    assert_eq!(graph.nodes.len(), 3);
    assert!(!graph.edges.is_empty());

    let hubs = graph.get_hubs(3);
    assert!(!hubs.is_empty());
}

#[test]
fn chain_matrix_edges_degrees_components() {
    // triples (0,0),(0,1),(1,1),(1,2),(2,2) on a 3x3 matrix:
    // edges {(0,1,w=1),(1,2,w=1)}, degrees [1,2,1], one component [0,1,2]
    let schema = coo_schema(vec![
        ("rows".to_string(), "3".to_string()),
        ("cols".to_string(), "3".to_string()),
    ]);
    let columns = coo_columns(vec![0, 0, 1, 1, 2], vec![0, 1, 1, 2, 2], vec![false; 5]);
    let graph = ConnectivityGraph::from_coo_batch(&schema, &columns).unwrap();

    assert_eq!(graph.n_rows, 3);
    assert_eq!(graph.n_cols, 3);
    assert_eq!(graph.edges.len(), 2);
    assert_eq!(
        (graph.edges[0].from, graph.edges[0].to, graph.edges[0].weight),
        (0, 1, 1)
    );
    assert_eq!(
        (graph.edges[1].from, graph.edges[1].to, graph.edges[1].weight),
        (1, 2, 1)
    );
    let degrees: Vec<usize> = graph.nodes.iter().map(|n| n.degree).collect();
    assert_eq!(degrees, vec![1, 2, 1]);

    let components = graph.connected_components();
    assert_eq!(components, vec![vec![0, 1, 2]]);
}

#[test]
fn empty_matrix_all_isolated() {
    // nnz == 0 with 5 declared rows: 5 isolated nodes, no edges,
    // 5 singleton components
    let schema = coo_schema(vec![
        ("rows".to_string(), "5".to_string()),
        ("cols".to_string(), "5".to_string()),
    ]);
    let columns = coo_columns(Vec::new(), Vec::new(), Vec::new());
    let graph = ConnectivityGraph::from_coo_batch(&schema, &columns).unwrap();

    assert_eq!(graph.nodes.len(), 5);
    assert_eq!(graph.edges.len(), 0);
    assert_eq!(graph.get_isolated_nodes().len(), 5);
    let components = graph.connected_components();
    assert_eq!(components.len(), 5);
    for (i, comp) in components.iter().enumerate() {
        assert_eq!(comp, &vec![i]);
    }
}

#[test]
fn row_without_entries_is_singleton_component() {
    // rows 0 and 2 share a column; row 1 stores nothing
    let schema = coo_schema(vec![
        ("rows".to_string(), "3".to_string()),
        ("cols".to_string(), "2".to_string()),
    ]);
    let columns = coo_columns(vec![0, 2], vec![0, 0], vec![false; 2]);
    let graph = ConnectivityGraph::from_coo_batch(&schema, &columns).unwrap();

    assert_eq!(graph.nodes[1].degree, 0);
    assert!(graph.nodes[1].connected_to.is_empty());
    let isolated = graph.get_isolated_nodes();
    assert_eq!(isolated.len(), 1);
    assert_eq!(isolated[0].id, 1);

    let components = graph.connected_components();
    assert_eq!(components, vec![vec![0, 2], vec![1]]);
}

#[test]
fn hubs_sorted_by_degree_then_id() {
    // row 1 shares columns with rows 0, 2 and 3; rows 0 and 2 also share
    let schema = coo_schema(vec![
        ("rows".to_string(), "4".to_string()),
        ("cols".to_string(), "4".to_string()),
    ]);
    let columns = coo_columns(
        vec![0, 0, 1, 1, 1, 2, 2, 3],
        vec![0, 3, 0, 1, 2, 1, 3, 2],
        vec![false; 8],
    );
    let graph = ConnectivityGraph::from_coo_batch(&schema, &columns).unwrap();
    // degrees: 0->{1,2}, 1->{0,2,3}, 2->{0,1}, 3->{1}
    let degrees: Vec<usize> = graph.nodes.iter().map(|n| n.degree).collect();
    assert_eq!(degrees, vec![2, 3, 2, 1]);

    let hubs = graph.get_hubs(2);
    assert_eq!(hubs.len(), 2);
    assert_eq!(hubs[0].id, 1);
    assert_eq!(hubs[1].id, 0); // degree tie between 0 and 2: smaller id first

    // a request covering every node returns them all, still ranked
    let all = graph.get_hubs(10);
    let ids: Vec<usize> = all.iter().map(|n| n.id).collect();
    assert_eq!(ids, vec![1, 0, 2, 3]);
}

#[test]
fn null_values_are_excluded_from_graph() {
    // the only triple joining rows 0 and 1 carries a null value
    let schema = coo_schema(vec![
        ("rows".to_string(), "2".to_string()),
        ("cols".to_string(), "1".to_string()),
    ]);
    let columns = coo_columns(vec![0, 1], vec![0, 0], vec![false, true]);
    let graph = ConnectivityGraph::from_coo_batch(&schema, &columns).unwrap();
    assert_eq!(graph.edges.len(), 0);
    assert_eq!(graph.nodes[0].degree, 0);
    assert_eq!(graph.nodes[1].degree, 0);
}

#[test]
fn graph_schema_errors() {
    // missing trio
    let schema = BatchSchema {
        names: vec!["a".to_string(), "col".to_string(), "value".to_string()],
        types: vec![ColumnType::UInt32, ColumnType::UInt32, ColumnType::Float64],
        metadata: Vec::new(),
    };
    let columns = coo_columns(vec![0], vec![0], vec![false]);
    assert_eq!(
        ConnectivityGraph::from_coo_batch(&schema, &columns).unwrap_err(),
        SchemaError::MissingCoordinateColumns
    );

    // wrong type for the value column
    let schema = coo_schema(Vec::new());
    let columns = vec![
        ColumnData::UInt32 { values: vec![0], nulls: vec![false] },
        ColumnData::UInt32 { values: vec![0], nulls: vec![false] },
        ColumnData::UInt32 { values: vec![0], nulls: vec![false] },
    ];
    assert_eq!(
        ConnectivityGraph::from_coo_batch(&schema, &columns).unwrap_err(),
        SchemaError::WrongColumnType
    );

    // arrays of differing length
    let schema = coo_schema(Vec::new());
    let columns = vec![
        ColumnData::UInt32 { values: vec![0, 1], nulls: vec![false, false] },
        ColumnData::UInt32 { values: vec![0], nulls: vec![false] },
        ColumnData::Float64 { nulls: vec![false, false] },
    ];
    assert_eq!(
        ConnectivityGraph::from_coo_batch(&schema, &columns).unwrap_err(),
        SchemaError::LengthMismatch
    );

    // a stored entry beyond the declared extent
    let schema = coo_schema(vec![
        ("rows".to_string(), "1".to_string()),
        ("cols".to_string(), "1".to_string()),
    ]);
    let columns = coo_columns(vec![5], vec![0], vec![false]);
    assert_eq!(
        ConnectivityGraph::from_coo_batch(&schema, &columns).unwrap_err(),
        SchemaError::IndexOutOfRange
    );
}

#[test]
fn graph_dimension_inference() {
    // no metadata: extents come from the largest indices
    let schema = coo_schema(Vec::new());
    let columns = coo_columns(vec![0, 4], vec![1, 2], vec![false; 2]);
    let graph = ConnectivityGraph::from_coo_batch(&schema, &columns).unwrap();
    assert_eq!(graph.n_rows, 5);
    assert_eq!(graph.n_cols, 3);
}

#[test]
fn coo_view_validation_and_dimensions() {
    let schema = coo_schema(vec![
        ("rows".to_string(), "7".to_string()),
        ("cols".to_string(), "9".to_string()),
    ]);
    let columns = coo_columns(vec![0, 1], vec![2, 3], vec![false; 2]);
    let view = CooView::from_batch(&schema, &columns).unwrap();
    assert_eq!(view.nnz, 2);
    assert_eq!((view.n_rows, view.n_cols), (7, 9));

    // only one declared dimension: both are inferred instead
    let schema = coo_schema(vec![("rows".to_string(), "7".to_string())]);
    let view = CooView::from_batch(&schema, &columns).unwrap();
    assert_eq!((view.n_rows, view.n_cols), (2, 4));

    // no triples at all still yields a 1x1 extent
    let schema = coo_schema(Vec::new());
    let empty = coo_columns(Vec::new(), Vec::new(), Vec::new());
    let view = CooView::from_batch(&schema, &empty).unwrap();
    assert_eq!((view.n_rows, view.n_cols, view.nnz), (1, 1, 0));
}

#[test]
fn coo_view_errors() {
    let schema = BatchSchema {
        names: vec!["row".to_string(), "col".to_string()],
        types: vec![ColumnType::UInt32, ColumnType::UInt32],
        metadata: Vec::new(),
    };
    let columns = vec![
        ColumnData::UInt32 { values: vec![0], nulls: vec![false] },
        ColumnData::UInt32 { values: vec![0], nulls: vec![false] },
    ];
    assert_eq!(
        CooView::from_batch(&schema, &columns).unwrap_err(),
        SchemaError::NotEnoughColumns
    );

    let schema = coo_schema(Vec::new());
    let columns = vec![
        ColumnData::Float64 { nulls: vec![false] },
        ColumnData::UInt32 { values: vec![0], nulls: vec![false] },
        ColumnData::Float64 { nulls: vec![false] },
    ];
    assert_eq!(
        CooView::from_batch(&schema, &columns).unwrap_err(),
        SchemaError::WrongColumnType
    );
}

#[test]
fn triples_window_clamps() {
    let schema = coo_schema(Vec::new());
    let columns = coo_columns(vec![0, 1, 2, 3], vec![0, 1, 2, 3], vec![false; 4]);
    let view = CooView::from_batch(&schema, &columns).unwrap();
    assert_eq!(view.triples_window(0, 2), (0, 2));
    assert_eq!(view.triples_window(3, 2), (3, 4));
    assert_eq!(view.triples_window(100, 2), (4, 4));
}

#[test]
fn sparsity_grid_marks_scaled_cells() {
    // 4x4 matrix with a full diagonal, drawn on a 2x2 grid
    let schema = coo_schema(vec![
        ("rows".to_string(), "4".to_string()),
        ("cols".to_string(), "4".to_string()),
    ]);
    let columns = coo_columns(vec![0, 1, 2, 3], vec![0, 1, 2, 3], vec![false; 4]);
    let view = CooView::from_batch(&schema, &columns).unwrap();
    let grid = view.sparsity_grid(2, 2);
    assert_eq!(grid.len(), 2);
    assert_eq!(grid[0], vec![true, false]);
    assert_eq!(grid[1], vec![false, true]);
}

#[test]
fn diagonal_entries_sorted_by_row() {
    let schema = coo_schema(Vec::new());
    // diagonal entries at triples 1 (row 2), 3 (row 0); off-diagonal elsewhere
    let columns = coo_columns(vec![0, 2, 1, 0], vec![1, 2, 2, 0], vec![false; 4]);
    let view = CooView::from_batch(&schema, &columns).unwrap();
    assert_eq!(view.diagonal_entries(6), vec![3, 1]);
    assert_eq!(view.diagonal_entries(1), vec![3]);
    // a matrix without diagonal entries yields nothing
    let columns = coo_columns(vec![0, 1], vec![1, 2], vec![false; 2]);
    let view = CooView::from_batch(&schema, &columns).unwrap();
    assert!(view.diagonal_entries(6).is_empty());
}

#[test]
fn top_connected_rows_ranked_by_count() {
    let schema = coo_schema(vec![
        ("rows".to_string(), "4".to_string()),
        ("cols".to_string(), "4".to_string()),
    ]);
    // row 0: 1 entry, row 1: 3 entries, row 3: 1 entry, row 2: none
    let columns = coo_columns(
        vec![1, 0, 1, 3, 1],
        vec![0, 1, 2, 3, 1],
        vec![false; 5],
    );
    let view = CooView::from_batch(&schema, &columns).unwrap();
    let ranked = view.top_connected_rows(6);
    assert_eq!(ranked, vec![(1, 3), (0, 1), (3, 1)]);
    let truncated = view.top_connected_rows(1);
    assert_eq!(truncated, vec![(1, 3)]);
    // a matrix without entries has no connected rows
    let empty = coo_columns(Vec::new(), Vec::new(), Vec::new());
    let view = CooView::from_batch(&coo_schema(Vec::new()), &empty).unwrap();
    assert!(view.top_connected_rows(6).is_empty());
}
