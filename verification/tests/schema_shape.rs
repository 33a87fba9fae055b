use javelin::schema::{
    collect_feature_cols, detect_lance_layout, detect_structure, expand_row_major, find_field,
    metadata_dimension, parse_usize, BatchSchema, ColumnType, DataStructure, LanceLayout,
    SchemaError,
};

fn schema_of(names: Vec<&str>, types: Vec<ColumnType>) -> BatchSchema {
    BatchSchema {
        names: names.into_iter().map(|s| s.to_string()).collect(),
        types,
        metadata: Vec::new(),
    }
}

#[test]
fn layout_detection() {
    let coo = schema_of(
        vec!["row", "col", "value"],
        vec![ColumnType::UInt32, ColumnType::UInt32, ColumnType::Float64],
    );
    assert_eq!(detect_lance_layout(&coo), LanceLayout::SparseCoo);

    let dense = schema_of(
        vec!["vector"],
        vec![ColumnType::FixedSizeList(Box::new(ColumnType::Float64), 16)],
    );
    assert_eq!(detect_lance_layout(&dense), LanceLayout::DenseRowMajor);

    let one_d = schema_of(vec!["lambdas"], vec![ColumnType::Float64]);
    assert_eq!(detect_lance_layout(&one_d), LanceLayout::Vector1D);

    // a fixed-size list of something else is shown as-is
    let other_list = schema_of(
        vec!["vector"],
        vec![ColumnType::FixedSizeList(Box::new(ColumnType::Int32), 16)],
    );
    assert_eq!(detect_lance_layout(&other_list), LanceLayout::Other);

    // the coordinate naming must be exact and in order
    let wrong_order = schema_of(
        vec!["col", "row", "value"],
        vec![ColumnType::UInt32, ColumnType::UInt32, ColumnType::Float64],
    );
    assert_eq!(detect_lance_layout(&wrong_order), LanceLayout::Other);

    let many = schema_of(
        vec!["a", "b"],
        vec![ColumnType::Float64, ColumnType::Float64],
    );
    assert_eq!(detect_lance_layout(&many), LanceLayout::Other);
}

#[test]
fn feature_columns_prefer_col_names() {
    let s = schema_of(
        vec!["name_id", "col_0", "col_1", "other"],
        vec![
            ColumnType::Utf8,
            ColumnType::Float64,
            ColumnType::Float64,
            ColumnType::Utf8,
        ],
    );
    assert_eq!(collect_feature_cols(&s).unwrap(), vec![1, 2]);
}

#[test]
fn feature_columns_single_column_fallback() {
    let s = schema_of(vec!["norms"], vec![ColumnType::Utf8]);
    assert_eq!(collect_feature_cols(&s).unwrap(), vec![0]);
}

#[test]
fn feature_columns_numeric_fallback() {
    let s = schema_of(
        vec!["row", "col", "value", "tag"],
        vec![
            ColumnType::UInt32,
            ColumnType::UInt32,
            ColumnType::Float64,
            ColumnType::Utf8,
        ],
    );
    assert_eq!(collect_feature_cols(&s).unwrap(), vec![0, 1, 2]);

    let none = schema_of(
        vec!["a", "b"],
        vec![ColumnType::Utf8, ColumnType::Boolean],
    );
    assert_eq!(
        collect_feature_cols(&none).unwrap_err(),
        SchemaError::NoFeatureColumns
    );
}

#[test]
fn find_field_takes_the_last_occurrence() {
    let names: Vec<String> = vec!["a".to_string(), "row".to_string(), "row".to_string()];
    assert_eq!(find_field(&names, "row"), Some(2));
    assert_eq!(find_field(&names, "col"), None);
}

#[test]
fn parse_usize_digits_only() {
    assert_eq!(parse_usize(&"0".to_string()), Some(0));
    assert_eq!(parse_usize(&"1234".to_string()), Some(1234));
    assert_eq!(parse_usize(&"007".to_string()), Some(7));
    assert_eq!(parse_usize(&"".to_string()), None);
    assert_eq!(parse_usize(&"12a".to_string()), None);
    assert_eq!(parse_usize(&"-3".to_string()), None);
    // far beyond any usize
    assert_eq!(parse_usize(&"99999999999999999999999999".to_string()), None);
}

#[test]
fn metadata_dimension_lookup() {
    let md = vec![
        ("rows".to_string(), "12".to_string()),
        ("cols".to_string(), "oops".to_string()),
    ];
    assert_eq!(metadata_dimension(&md, "rows"), Some(12));
    assert_eq!(metadata_dimension(&md, "cols"), None);
    assert_eq!(metadata_dimension(&md, "depth"), None);
}

#[test]
fn structure_detection() {
    let dense = ColumnType::FixedSizeList(Box::new(ColumnType::Float64), 32);
    assert_eq!(detect_structure(&dense), DataStructure::DenseMatrix(1, 32));

    let nested = ColumnType::FixedSizeList(
        Box::new(ColumnType::FixedSizeList(Box::new(ColumnType::Float64), 4)),
        8,
    );
    assert_eq!(detect_structure(&nested), DataStructure::Matrix2D(8, 4));

    let coo_struct = ColumnType::Struct(vec![
        "row_indices".to_string(),
        "col_indices".to_string(),
        "values".to_string(),
    ]);
    assert_eq!(detect_structure(&coo_struct), DataStructure::SparseMatrix);

    let csr_struct = ColumnType::Struct(vec![
        "indptr".to_string(),
        "indices".to_string(),
        "data".to_string(),
    ]);
    assert_eq!(detect_structure(&csr_struct), DataStructure::SparseMatrix);

    let plain_struct = ColumnType::Struct(vec!["x".to_string()]);
    assert_eq!(detect_structure(&plain_struct), DataStructure::Other);

    assert_eq!(detect_structure(&ColumnType::Float64), DataStructure::Scalar);
    assert_eq!(detect_structure(&ColumnType::Utf8), DataStructure::Scalar);
    assert_eq!(
        detect_structure(&ColumnType::List(Box::new(ColumnType::Float64))),
        DataStructure::Other
    );
    assert_eq!(detect_structure(&ColumnType::Int8), DataStructure::Other);
}

#[test]
fn expand_row_major_transposes_the_store() {
    // two rows of width three, stored row-major
    let values: Vec<u64> = vec![1, 2, 3, 4, 5, 6];
    let cols = expand_row_major(&values, 2, 3);
    assert_eq!(cols.len(), 3);
    assert_eq!(cols[0], vec![1, 4]);
    assert_eq!(cols[1], vec![2, 5]);
    assert_eq!(cols[2], vec![3, 6]);
}

#[test]
fn schema_error_messages() {
    assert_eq!(
        SchemaError::LengthMismatch.describe(),
        "row/col/value length mismatch"
    );
    assert_eq!(
        SchemaError::MissingCoordinateColumns.describe(),
        "schema must contain 'row', 'col', and 'value' columns"
    );
}
