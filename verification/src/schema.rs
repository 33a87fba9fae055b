//! Schema model of a columnar batch: field names, per-column shape tags and
//! string metadata.  The loader fills this once per batch; every "discover
//! the schema shape, then branch" decision of the viewer is made here, on
//! plain values, instead of being re-inspected per access.

use vstd::prelude::*;

verus! {

use vstd::std_specs::iter::IteratorSpec;

/// Shape tag of one column, as far as the viewer's decisions read it.
#[derive(Debug)]
pub enum ColumnType {
    Float32,
    Float64,
    Int8,
    Int16,
    Int32,
    Int64,
    UInt8,
    UInt16,
    UInt32,
    UInt64,
    Utf8,
    Boolean,
    /// Fixed-width list of elements of one type: the element type and width.
    FixedSizeList(Box<ColumnType>, usize),
    /// Variable-length list of elements of one type.
    List(Box<ColumnType>),
    /// Struct column, described by its field names.
    Struct(Vec<String>),
    Other,
}

impl ColumnType {
    /// Numeric scalar columns, the fallback feature set of the spreadsheet.
    pub open spec fn spec_is_numeric(self) -> bool {
        match self {
            ColumnType::Float32
            | ColumnType::Float64
            | ColumnType::Int8
            | ColumnType::Int16
            | ColumnType::Int32
            | ColumnType::Int64
            | ColumnType::UInt8
            | ColumnType::UInt16
            | ColumnType::UInt32
            | ColumnType::UInt64 => true,
            _ => false,
        }
    }

    /// The scalar types accepted for a single-column one-dimensional vector.
    /// `Float32` is deliberately absent: a lone `Float32` column is not a
    /// layout this viewer recognises.
    pub open spec fn spec_is_vector_scalar(self) -> bool {
        match self {
            ColumnType::Float64
            | ColumnType::Int64
            | ColumnType::UInt32
            | ColumnType::Int32
            | ColumnType::UInt64
            | ColumnType::Int16
            | ColumnType::UInt16
            | ColumnType::Int8
            | ColumnType::UInt8 => true,
            _ => false,
        }
    }

    pub fn is_numeric(&self) -> (r: bool)
        ensures
            r == self.spec_is_numeric(),
    {
        match self {
            ColumnType::Float32
            | ColumnType::Float64
            | ColumnType::Int8
            | ColumnType::Int16
            | ColumnType::Int32
            | ColumnType::Int64
            | ColumnType::UInt8
            | ColumnType::UInt16
            | ColumnType::UInt32
            | ColumnType::UInt64 => true,
            _ => false,
        }
    }

    pub fn is_vector_scalar(&self) -> (r: bool)
        ensures
            r == self.spec_is_vector_scalar(),
    {
        match self {
            ColumnType::Float64
            | ColumnType::Int64
            | ColumnType::UInt32
            | ColumnType::Int32
            | ColumnType::UInt64
            | ColumnType::Int16
            | ColumnType::UInt16
            | ColumnType::Int8
            | ColumnType::UInt8 => true,
            _ => false,
        }
    }
}

/// What can go wrong when the viewer interprets a batch's shape.  Fatal only
/// to the view that needed the interpretation; the caller renders an error
/// panel instead.
#[derive(Clone, Copy, Debug, PartialEq, Eq, Structural)]
pub enum SchemaError {
    /// Fewer than three columns where a sparse batch needs row, col, value.
    NotEnoughColumns,
    /// No trio of columns named row, col and value.
    MissingCoordinateColumns,
    /// A located coordinate column does not have the expected type.
    WrongColumnType,
    /// The row, col and value arrays differ in length.
    LengthMismatch,
    /// A coordinate lies outside the declared matrix dimensions.
    IndexOutOfRange,
    /// Nothing matches `col_*` and no numeric fallback column exists.
    NoFeatureColumns,
}

impl SchemaError {
    /// A short description for the error panel.
    pub fn describe(&self) -> (r: &'static str)
        ensures
            *self is NotEnoughColumns ==> r@ == "expected at least 3 columns (row, col, value)"@,
            *self is MissingCoordinateColumns ==> r@
                == "schema must contain 'row', 'col', and 'value' columns"@,
            *self is WrongColumnType ==> r@
                == "row and col must be UInt32 and value must be Float64"@,
            *self is LengthMismatch ==> r@ == "row/col/value length mismatch"@,
            *self is IndexOutOfRange ==> r@
                == "a coordinate exceeds the declared matrix dimensions"@,
            *self is NoFeatureColumns ==> r@
                == "expected 'col_*' feature columns or at least one numeric column"@,
    {
        match self {
            SchemaError::NotEnoughColumns => "expected at least 3 columns (row, col, value)",
            SchemaError::MissingCoordinateColumns => "schema must contain 'row', 'col', and 'value' columns",
            SchemaError::WrongColumnType => "row and col must be UInt32 and value must be Float64",
            SchemaError::LengthMismatch => "row/col/value length mismatch",
            SchemaError::IndexOutOfRange => "a coordinate exceeds the declared matrix dimensions",
            SchemaError::NoFeatureColumns => "expected 'col_*' feature columns or at least one numeric column",
        }
    }
}

/// Schema of one loaded batch: parallel name and type lists plus key/value
/// metadata (which may declare the matrix dimensions).
pub struct BatchSchema {
    pub names: Vec<String>,
    pub types: Vec<ColumnType>,
    pub metadata: Vec<(String, String)>,
}

impl BatchSchema {
    /// The name and type lists describe the same columns.
    pub open spec fn wf(self) -> bool {
        self.names@.len() == self.types@.len()
    }
}

/// True when `s` equals the target string, by characters.
pub fn string_is(s: &String, target: &str) -> (r: bool)
    ensures
        r == (s@ == target@),
{
    let t: String = target.to_owned();
    *s == t
}

/// The index of the last column named `target`, if any; scanning the schema
/// front to back and keeping the latest hit lands on the last one.
pub fn find_field(names: &Vec<String>, target: &str) -> (r: Option<usize>)
    ensures
        match r {
            Some(i) => i < names@.len() && names@[i as int]@ == target@ && forall|j: int|
                i < j < names@.len() ==> names@[j]@ != target@,
            None => forall|j: int| 0 <= j < names@.len() ==> names@[j]@ != target@,
        },
{
    let mut found: Option<usize> = None;
    let mut i: usize = 0;
    while i < names.len()
        invariant
            i <= names@.len(),
            match found {
                Some(k) => k < i && names@[k as int]@ == target@ && forall|j: int|
                    k < j < i ==> names@[j]@ != target@,
                None => forall|j: int| 0 <= j < i ==> names@[j]@ != target@,
            },
        decreases names@.len() - i,
    {
        if string_is(&names[i], target) {
            found = Some(i);
        }
        i = i + 1;
    }
    found
}

/// True when some column bears the name `target`.
pub fn contains_name(names: &Vec<String>, target: &str) -> (r: bool)
    ensures
        r == exists|i: int| 0 <= i < names@.len() && names@[i]@ == target@,
{
    let r = find_field(names, target);
    match r {
        Some(i) => {
            proof {
                assert(names@[i as int]@ == target@);
            }
            true
        },
        None => false,
    }
}

/// A name of the form `col_*`: the marker of an explicit feature column.
pub open spec fn is_col_name(name: Seq<char>) -> bool {
    name.len() >= 4 && name[0] == 'c' && name[1] == 'o' && name[2] == 'l' && name[3] == '_'
}

/// True when the name starts with `col_`.
pub fn has_col_prefix(s: &String) -> (r: bool)
    ensures
        r == is_col_name(s@),
{
    let mut it = s.as_str().chars();
    let c0 = match it.next() {
        Some(c) => c,
        None => { return false; },
    };
    if c0 != 'c' {
        return false;
    }
    let c1 = match it.next() {
        Some(c) => c,
        None => { return false; },
    };
    if c1 != 'o' {
        return false;
    }
    let c2 = match it.next() {
        Some(c) => c,
        None => { return false; },
    };
    if c2 != 'l' {
        return false;
    }
    let c3 = match it.next() {
        Some(c) => c,
        None => { return false; },
    };
    c3 == '_'
}

/// How a loaded batch is laid out, decided once at load time.
#[derive(Clone, Copy, Debug, PartialEq, Eq, Structural)]
pub enum LanceLayout {
    /// One fixed-width Float64 list column: each row is a dense vector.
    DenseRowMajor,
    /// Columns row, col, value: coordinate-format sparse triples.
    SparseCoo,
    /// A single primitive column: a one-dimensional vector.
    Vector1D,
    /// Anything else, shown as-is.
    Other,
}

/// The exact row/col/value naming that marks a sparse coordinate batch.
pub open spec fn spec_is_coo_named(names: Seq<String>) -> bool {
    names.len() == 3 && names[0]@ == "row"@ && names[1]@ == "col"@ && names[2]@ == "value"@
}

/// The layout decision: sparse triples by the exact three-column naming,
/// else a single column read as a dense matrix or a one-dimensional vector,
/// else shown as-is.
pub open spec fn spec_layout(schema: BatchSchema) -> LanceLayout {
    if spec_is_coo_named(schema.names@) {
        LanceLayout::SparseCoo
    } else if schema.types@.len() == 1 {
        match schema.types@[0] {
            ColumnType::FixedSizeList(inner, _) => if *inner is Float64 {
                LanceLayout::DenseRowMajor
            } else {
                LanceLayout::Other
            },
            t => if t.spec_is_vector_scalar() {
                LanceLayout::Vector1D
            } else {
                LanceLayout::Other
            },
        }
    } else {
        LanceLayout::Other
    }
}

/// A single column whose type neither is a fixed-size list nor one of the
/// accepted vector scalars has no recognised layout; the viewer
/// refuses such a file outright, so this function is not defined on it.
pub open spec fn layout_recognisable(schema: BatchSchema) -> bool {
    schema.types@.len() == 1 ==> match schema.types@[0] {
        ColumnType::FixedSizeList(_, _) => true,
        t => t.spec_is_vector_scalar(),
    }
}

/// Decide the batch layout from the schema.
pub fn detect_lance_layout(schema: &BatchSchema) -> (r: LanceLayout)
    requires
        schema.wf(),
        layout_recognisable(*schema),
    ensures
        r == spec_layout(*schema),
{
    if schema.names.len() == 3 {
        if string_is(&schema.names[0], "row") && string_is(&schema.names[1], "col") && string_is(
            &schema.names[2],
            "value",
        ) {
            return LanceLayout::SparseCoo;
        }
    }
    if schema.types.len() == 1 {
        match &schema.types[0] {
            ColumnType::FixedSizeList(inner, _) => {
                if matches!(**inner, ColumnType::Float64) {
                    return LanceLayout::DenseRowMajor;
                } else {
                    return LanceLayout::Other;
                }
            },
            t => {
                if t.is_vector_scalar() {
                    return LanceLayout::Vector1D;
                } else {
                    return LanceLayout::Other;
                }
            },
        }
    }
    LanceLayout::Other
}

/// The feature columns of the spreadsheet view, on `Ok`:
/// - every `col_*` column, in schema order, when any exists;
/// - otherwise the single column of a one-column batch;
/// - otherwise every numeric column, in schema order.
/// `Err(NoFeatureColumns)` exactly when all three come up empty.
pub fn collect_feature_cols(schema: &BatchSchema) -> (r: Result<Vec<usize>, SchemaError>)
    requires
        schema.wf(),
    ensures
        match r {
            Ok(cols) => {
                &&& cols@.len() > 0
                &&& forall|j: int| 0 <= j < cols@.len() ==> cols@[j] < schema.names@.len()
                &&& forall|j1: int, j2: int|
                    0 <= j1 < j2 < cols@.len() ==> cols@[j1] < cols@[j2]
                &&& if exists|i: int|
                    0 <= i < schema.names@.len() && is_col_name(schema.names@[i]@) {
                    // explicitly marked feature columns
                    &&& forall|j: int|
                        0 <= j < cols@.len() ==> is_col_name(schema.names@[cols@[j] as int]@)
                    &&& forall|i: int|
                        0 <= i < schema.names@.len() && is_col_name(schema.names@[i]@)
                            ==> cols@.contains(i as usize)
                } else if schema.names@.len() == 1 {
                    // a single column stands for one feature
                    cols@ =~= seq![0usize]
                } else {
                    // all numeric columns
                    &&& forall|j: int|
                        0 <= j < cols@.len() ==> schema.types@[cols@[j] as int].spec_is_numeric()
                    &&& forall|i: int|
                        0 <= i < schema.names@.len() && schema.types@[i].spec_is_numeric()
                            ==> cols@.contains(i as usize)
                }
            },
            Err(e) => {
                &&& e is NoFeatureColumns
                &&& forall|i: int|
                    0 <= i < schema.names@.len() ==> !is_col_name(schema.names@[i]@)
                &&& schema.names@.len() != 1
                &&& forall|i: int|
                    0 <= i < schema.names@.len() ==> !schema.types@[i].spec_is_numeric()
            },
        },
{
    let n = schema.names.len();
    let mut cols: Vec<usize> = Vec::new();
    let mut i: usize = 0;
    while i < n
        invariant
            schema.wf(),
            n == schema.names@.len(),
            i <= n,
            forall|j: int| 0 <= j < cols@.len() ==> cols@[j] < i,
            forall|j1: int, j2: int| 0 <= j1 < j2 < cols@.len() ==> cols@[j1] < cols@[j2],
            forall|j: int| 0 <= j < cols@.len() ==> is_col_name(schema.names@[cols@[j] as int]@),
            forall|k: int| 0 <= k < i && is_col_name(schema.names@[k]@) ==> cols@.contains(
                k as usize,
            ),
        decreases n - i,
    {
        if has_col_prefix(&schema.names[i]) {
            let ghost prev = cols@;
            cols.push(i);
            proof {
                assert forall|k: int| 0 <= k <= i && is_col_name(schema.names@[k]@) implies cols@
                    .contains(k as usize) by {
                    if k == i {
                        assert(cols@[prev.len() as int] == i as usize);
                    } else {
                        assert(prev.contains(k as usize));
                        let idx = choose|idx: int|
                            0 <= idx < prev.len() && prev[idx] == k as usize;
                        assert(cols@[idx] == k as usize);
                    }
                }
            }
        }
        i = i + 1;
    }
    if cols.len() > 0 {
        proof {
            let w = cols@[0];
            assert(is_col_name(schema.names@[w as int]@));
        }
        return Ok(cols);
    }
    if n == 1 {
        let mut single: Vec<usize> = Vec::new();
        single.push(0);
        proof {
            assert(single@ =~= seq![0usize]);
        }
        return Ok(single);
    }
    let mut numeric: Vec<usize> = Vec::new();
    let mut i: usize = 0;
    while i < n
        invariant
            schema.wf(),
            n == schema.names@.len(),
            i <= n,
            forall|j: int| 0 <= j < numeric@.len() ==> numeric@[j] < i,
            forall|j1: int, j2: int| 0 <= j1 < j2 < numeric@.len() ==> numeric@[j1] < numeric@[j2],
            forall|j: int|
                0 <= j < numeric@.len() ==> schema.types@[numeric@[j] as int].spec_is_numeric(),
            forall|k: int|
                0 <= k < i && schema.types@[k].spec_is_numeric() ==> numeric@.contains(k as usize),
        decreases n - i,
    {
        if schema.types[i].is_numeric() {
            let ghost prev = numeric@;
            numeric.push(i);
            proof {
                assert forall|k: int|
                    0 <= k <= i && schema.types@[k].spec_is_numeric() implies numeric@.contains(
                    k as usize,
                ) by {
                    if k == i {
                        assert(numeric@[prev.len() as int] == i as usize);
                    } else {
                        assert(prev.contains(k as usize));
                        let idx = choose|idx: int|
                            0 <= idx < prev.len() && prev[idx] == k as usize;
                        assert(numeric@[idx] == k as usize);
                    }
                }
            }
        }
        i = i + 1;
    }
    if numeric.len() > 0 {
        Ok(numeric)
    } else {
        Err(SchemaError::NoFeatureColumns)
    }
}

/// The first metadata value stored under `key`, if any.
pub open spec fn spec_meta_lookup(md: Seq<(String, String)>, key: Seq<char>) -> Option<Seq<char>>
    decreases md.len(),
{
    if md.len() == 0 {
        None
    } else if md[0].0@ == key {
        Some(md[0].1@)
    } else {
        spec_meta_lookup(md.drop_first(), key)
    }
}

/// A key absent from a prefix leaves the lookup to the remainder.
proof fn lemma_meta_lookup_skip(md: Seq<(String, String)>, key: Seq<char>, i: int)
    requires
        0 <= i <= md.len(),
        forall|j: int| 0 <= j < i ==> md[j].0@ != key,
    ensures
        spec_meta_lookup(md, key) == spec_meta_lookup(md.skip(i), key),
    decreases i,
{
    if i > 0 {
        assert(md.drop_first() =~= md.skip(1));
        lemma_meta_lookup_skip(md.skip(1), key, i - 1);
        assert(md.skip(1).skip(i - 1) =~= md.skip(i));
    } else {
        assert(md.skip(0) =~= md);
    }
}

/// The value stored under `key` in the batch metadata, if any.
pub fn metadata_value<'a>(metadata: &'a Vec<(String, String)>, key: &str) -> (r: Option<
    &'a String,
>)
    ensures
        match r {
            Some(v) => spec_meta_lookup(metadata@, key@) == Some(v@),
            None => spec_meta_lookup(metadata@, key@) is None,
        },
{
    let mut i: usize = 0;
    while i < metadata.len()
        invariant
            i <= metadata@.len(),
            forall|j: int| 0 <= j < i ==> metadata@[j].0@ != key@,
        decreases metadata@.len() - i,
    {
        if string_is(&metadata[i].0, key) {
            proof {
                lemma_meta_lookup_skip(metadata@, key@, i as int);
                assert(metadata@.skip(i as int)[0] == metadata@[i as int]);
            }
            return Some(&metadata[i].1);
        }
        i = i + 1;
    }
    proof {
        lemma_meta_lookup_skip(metadata@, key@, metadata@.len() as int);
    }
    None
}

/// A decimal digit.
pub open spec fn is_digit(c: char) -> bool {
    48 <= c as u32 <= 57
}

/// The numeric value of a digit character.
pub open spec fn digit_val(c: char) -> int {
    c as u32 - 48
}

pub open spec fn all_digits(s: Seq<char>) -> bool {
    forall|i: int| 0 <= i < s.len() ==> is_digit(s[i])
}

/// The value of a digit string read in base ten.
pub open spec fn decimal_value(s: Seq<char>) -> int
    decreases s.len(),
{
    if s.len() == 0 {
        0
    } else {
        decimal_value(s.drop_last()) * 10 + digit_val(s.last())
    }
}

proof fn lemma_decimal_value_nonneg(s: Seq<char>)
    requires
        all_digits(s),
    ensures
        decimal_value(s) >= 0,
    decreases s.len(),
{
    if s.len() > 0 {
        assert(all_digits(s.drop_last()));
        lemma_decimal_value_nonneg(s.drop_last());
    }
}

/// Extending a digit string never lowers its value.
proof fn lemma_decimal_prefix_le(s: Seq<char>, k: int)
    requires
        all_digits(s),
        0 <= k <= s.len(),
    ensures
        decimal_value(s.take(k)) <= decimal_value(s),
    decreases s.len() - k,
{
    if k < s.len() {
        let t = s.take(k + 1);
        assert(t.drop_last() =~= s.take(k));
        assert(all_digits(t.drop_last()));
        lemma_decimal_value_nonneg(t.drop_last());
        assert(decimal_value(t) == decimal_value(s.take(k)) * 10 + digit_val(t.last()));
        assert(decimal_value(s.take(k)) <= decimal_value(t));
        lemma_decimal_prefix_le(s, k + 1);
        assert(s.take(s.len() as int) =~= s);
    } else {
        assert(s.take(k) =~= s);
    }
}

/// What a read of a base-ten unsigned integer yields: a value exactly on
/// nonempty all-digit strings that fit in `usize`; no sign, no spaces, no
/// other radix.
pub open spec fn spec_parse_usize(s: Seq<char>) -> Option<usize> {
    if s.len() > 0 && all_digits(s) && decimal_value(s) <= usize::MAX {
        Some(decimal_value(s) as usize)
    } else {
        None
    }
}

/// Read a base-ten unsigned integer.
pub fn parse_usize(s: &String) -> (r: Option<usize>)
    ensures
        r == spec_parse_usize(s@),
{
    let mut it = s.as_str().chars();
    let mut acc: usize = 0;
    let ghost mut k: int = 0;
    let mut any = false;
    loop
        invariant
            0 <= k <= s@.len(),
            it.obeys_prophetic_iter_laws(),
            it.remaining() =~= s@.skip(k),
            all_digits(s@.take(k)),
            acc == decimal_value(s@.take(k)),
            any == (k > 0),
        ensures
            k == s@.len(),
            all_digits(s@),
            acc == decimal_value(s@),
            any == (s@.len() > 0),
        decreases s@.len() - k,
    {
        let c = match it.next() {
            Some(c) => c,
            None => {
                proof {
                    assert(s@.skip(k).len() == 0);
                    assert(s@.take(k) =~= s@);
                }
                break;
            },
        };
        proof {
            assert(s@.skip(k)[0] == s@[k]);
            assert(s@.skip(k).drop_first() =~= s@.skip(k + 1));
        }
        let d = c as u32;
        if d < 48 || d > 57 {
            proof {
                assert(!is_digit(s@[k]));
            }
            return None;
        }
        let digit = (d - 48) as usize;
        let shifted = match acc.checked_mul(10) {
            Some(v) => v,
            None => {
                proof {
                    lemma_step_value(s@, k);
                    if all_digits(s@) {
                        lemma_decimal_prefix_le(s@, k + 1);
                    }
                }
                return None;
            },
        };
        let next = match shifted.checked_add(digit) {
            Some(v) => v,
            None => {
                proof {
                    lemma_step_value(s@, k);
                    if all_digits(s@) {
                        lemma_decimal_prefix_le(s@, k + 1);
                    }
                }
                return None;
            },
        };
        acc = next;
        any = true;
        proof {
            lemma_step_value(s@, k);
            k = k + 1;
        }
    }
    if any {
        Some(acc)
    } else {
        None
    }
}

/// One parsing step: the value of a digit string grows by a factor of ten
/// plus the next digit.
proof fn lemma_step_value(s: Seq<char>, k: int)
    requires
        0 <= k < s.len(),
    ensures
        decimal_value(s.take(k + 1)) == decimal_value(s.take(k)) * 10 + digit_val(s[k]),
        all_digits(s.take(k)) && is_digit(s[k]) ==> all_digits(s.take(k + 1)),
{
    let t = s.take(k + 1);
    assert(t.drop_last() =~= s.take(k));
    assert(t.last() == s[k]);
}

/// The matrix dimension declared under `key`: present and readable as a
/// decimal number, or nothing.
pub open spec fn spec_declared_dim(md: Seq<(String, String)>, key: Seq<char>) -> Option<usize> {
    match spec_meta_lookup(md, key) {
        Some(v) => spec_parse_usize(v),
        None => None,
    }
}

/// A declared matrix dimension: the metadata value under `key`, when it is
/// present and reads as a decimal number.
pub fn metadata_dimension(metadata: &Vec<(String, String)>, key: &str) -> (r: Option<usize>)
    ensures
        r == spec_declared_dim(metadata@, key@),
{
    match metadata_value(metadata, key) {
        Some(v) => parse_usize(v),
        None => None,
    }
}

/// The structural class of one column, as the statistics pass reads it.
#[derive(Clone, Copy, Debug, PartialEq, Eq, Structural)]
pub enum DataStructure {
    /// One-dimensional vector with its size.
    Vector1D(usize),
    /// Two-dimensional matrix: rows and columns.
    Matrix2D(usize, usize),
    /// Dense matrix stored row-major: one record per row, so many columns.
    DenseMatrix(usize, usize),
    /// Sparse matrix in coordinate or compressed-row form.
    SparseMatrix,
    /// A single scalar value per row.
    Scalar,
    /// Complex or unknown structure.
    Other,
}

/// Struct columns that carry a sparse matrix: coordinate form names its
/// arrays row_indices/col_indices/values, compressed-row form
/// indptr/indices/data.
pub open spec fn spec_struct_is_sparse(fields: Seq<String>) -> bool {
    ||| {
        &&& exists|i: int| 0 <= i < fields.len() && fields[i]@ == "row_indices"@
        &&& exists|i: int| 0 <= i < fields.len() && fields[i]@ == "col_indices"@
        &&& exists|i: int| 0 <= i < fields.len() && fields[i]@ == "values"@
    }
    ||| {
        &&& exists|i: int| 0 <= i < fields.len() && fields[i]@ == "indptr"@
        &&& exists|i: int| 0 <= i < fields.len() && fields[i]@ == "indices"@
        &&& exists|i: int| 0 <= i < fields.len() && fields[i]@ == "data"@
    }
}

/// The structural class assigned to a column type.
pub open spec fn spec_detect_structure(t: ColumnType) -> DataStructure {
    match t {
        ColumnType::FixedSizeList(inner, size) => match *inner {
            ColumnType::Float32 | ColumnType::Float64 | ColumnType::Int32 | ColumnType::Int64 => {
                DataStructure::DenseMatrix(1, size)
            },
            ColumnType::FixedSizeList(_, cols) => DataStructure::Matrix2D(size, cols),
            _ => DataStructure::Other,
        },
        ColumnType::Struct(fields) => if spec_struct_is_sparse(fields@) {
            DataStructure::SparseMatrix
        } else {
            DataStructure::Other
        },
        ColumnType::List(_) => DataStructure::Other,
        ColumnType::Float32
        | ColumnType::Float64
        | ColumnType::Int32
        | ColumnType::Int64
        | ColumnType::UInt32
        | ColumnType::UInt64
        | ColumnType::Utf8
        | ColumnType::Boolean => DataStructure::Scalar,
        _ => DataStructure::Other,
    }
}

/// Classify a column's structure: dense matrices from fixed-width float or
/// integer lists, sparse matrices from struct columns with the known field
/// names, scalars from plain primitive columns, everything else Other.
pub fn detect_structure(t: &ColumnType) -> (r: DataStructure)
    ensures
        r == spec_detect_structure(*t),
{
    match t {
        ColumnType::FixedSizeList(inner, size) => {
            match &**inner {
                ColumnType::Float32 | ColumnType::Float64 | ColumnType::Int32
                | ColumnType::Int64 => DataStructure::DenseMatrix(1, *size),
                ColumnType::FixedSizeList(_, cols) => DataStructure::Matrix2D(*size, *cols),
                _ => DataStructure::Other,
            }
        },
        ColumnType::Struct(fields) => {
            let coo = contains_name(fields, "row_indices") && contains_name(fields, "col_indices")
                && contains_name(fields, "values");
            let csr = contains_name(fields, "indptr") && contains_name(fields, "indices")
                && contains_name(fields, "data");
            if coo || csr {
                DataStructure::SparseMatrix
            } else {
                DataStructure::Other
            }
        },
        ColumnType::List(_) => DataStructure::Other,
        ColumnType::Float32
        | ColumnType::Float64
        | ColumnType::Int32
        | ColumnType::Int64
        | ColumnType::UInt32
        | ColumnType::UInt64
        | ColumnType::Utf8
        | ColumnType::Boolean => DataStructure::Scalar,
        _ => DataStructure::Other,
    }
}

/// Split the flat row-major backing store of a fixed-width list column into
/// one value vector per dimension: entry `r` of output `d` is element
/// `r * width + d` of the store.
pub fn expand_row_major<T: Copy>(values: &Vec<T>, n_rows: usize, width: usize) -> (out: Vec<
    Vec<T>,
>)
    requires
        values@.len() == n_rows * width,
    ensures
        out@.len() == width,
        forall|d: int| 0 <= d < width ==> out@[d]@.len() == n_rows,
        forall|d: int, r: int|
            0 <= d < width && 0 <= r < n_rows ==> out@[d]@[r] == values@[r * width + d],
{
    let mut out: Vec<Vec<T>> = Vec::new();
    let mut d: usize = 0;
    while d < width
        invariant
            d <= width,
            values@.len() == n_rows * width,
            out@.len() == d,
            forall|dd: int| 0 <= dd < d ==> out@[dd]@.len() == n_rows,
            forall|dd: int, r: int|
                0 <= dd < d && 0 <= r < n_rows ==> out@[dd]@[r] == values@[r * width + dd],
        decreases width - d,
    {
        let mut column: Vec<T> = Vec::new();
        let mut r: usize = 0;
        while r < n_rows
            invariant
                r <= n_rows,
                d < width,
                values@.len() == n_rows * width,
                column@.len() == r,
                forall|rr: int| 0 <= rr < r ==> column@[rr] == values@[rr * width + d],
            decreases n_rows - r,
        {
            let _store_bound = values.len();
            proof {
                assert(r * width + d < n_rows * width) by (nonlinear_arith)
                    requires
                        r < n_rows,
                        d < width,
                ;
            }
            let idx = r * width + d;
            column.push(values[idx]);
            r = r + 1;
        }
        out.push(column);
        d = d + 1;
    }
    out
}

} // verus!
