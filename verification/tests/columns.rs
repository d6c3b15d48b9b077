use std::collections::HashMap;
use std::sync::Arc;

use arrow_array::types::Int32Type;
use arrow_array::{
    Array, ArrayRef, BinaryArray, BinaryViewArray, BooleanArray, Date32Array, Decimal128Array,
    DictionaryArray, FixedSizeBinaryArray, Float64Array, Int32Array, LargeStringArray, NullArray,
    RecordBatch, StringArray, StringViewArray, StructArray, TimestampMicrosecondArray,
};
use arrow_buffer::NullBuffer;
use arrow_schema::{ArrowError, DataType, Field, Fields, Schema};
use record_batch_projector::error::Source;
use record_batch_projector::{
    Batch, Column, Error, ErrorKind, RecordBatchProjector, SchemaTree,
};

fn ints(values: Vec<Option<i32>>) -> ArrayRef {
    Arc::new(Int32Array::from(values))
}

fn nest(fields: Vec<(Field, ArrayRef)>, valid: Vec<bool>) -> ArrayRef {
    let (fields, arrays): (Vec<Field>, Vec<ArrayRef>) = fields.into_iter().unzip();
    Arc::new(StructArray::new(
        Fields::from(fields),
        arrays,
        Some(NullBuffer::from(valid)),
    ))
}

fn int_field(name: &str, nullable: bool) -> Field {
    Field::new(name, DataType::Int32, nullable)
}

fn batch(columns: Vec<(&str, bool, ArrayRef)>) -> RecordBatch {
    let fields: Vec<Field> = columns
        .iter()
        .map(|(name, nullable, array)| Field::new(*name, array.data_type().clone(), *nullable))
        .collect();
    let arrays = columns.into_iter().map(|(_, _, array)| array).collect();
    RecordBatch::try_new(Arc::new(Schema::new(fields)), arrays).unwrap()
}

fn columns_of(batch: &RecordBatch) -> Vec<Column> {
    batch
        .columns()
        .iter()
        .map(|array| Column { array: array.clone() })
        .collect()
}

fn names(list: &[&str]) -> Vec<String> {
    list.iter().map(|name| name.to_string()).collect()
}

fn projector(batch: &RecordBatch, list: &[&str]) -> RecordBatchProjector {
    RecordBatchProjector::new_by_names(&SchemaTree::from_arrow(&batch.schema()), &names(list))
        .unwrap()
}

fn by_name(batch: &RecordBatch, list: &[&str]) -> Result<Vec<Column>, Error> {
    RecordBatchProjector::project_columns_by_name(&Batch { batch: batch.clone() }, &names(list))
}

fn values(column: &Column) -> Vec<Option<i32>> {
    let array = column.array.as_any().downcast_ref::<Int32Array>().unwrap();
    array.iter().collect()
}

/// A column of two nested structs, with nulls at each of the three levels.
fn three_levels() -> RecordBatch {
    let leaf = ints(vec![Some(0), Some(1), None, Some(3), Some(4), None]);
    let middle = nest(
        vec![(int_field("leaf", true), leaf)],
        vec![true, true, true, false, true, true],
    );
    let middle_field = Field::new("middle", middle.data_type().clone(), true);
    let top = nest(
        vec![(int_field("side", true), ints(vec![Some(9); 6])), (middle_field, middle)],
        vec![true, false, true, true, true, false],
    );
    batch(vec![("plain", false, ints((10..16).map(Some).collect())), ("top", true, top)])
}

#[test]
fn nulls_of_every_level_are_kept() {
    let batch = three_levels();
    let columns = by_name(&batch, &["top.middle.leaf", "top.side", "plain"]).unwrap();
    assert_eq!(columns.len(), 3);
    assert_eq!(
        values(&columns[0]),
        vec![Some(0), None, None, None, Some(4), None]
    );
    assert_eq!(columns[0].array.null_count(), 4);
    assert_eq!(
        values(&columns[1]),
        vec![Some(9), None, Some(9), Some(9), Some(9), None]
    );
    assert_eq!(
        values(&columns[2]),
        vec![Some(10), Some(11), Some(12), Some(13), Some(14), Some(15)]
    );
    assert_eq!(columns[2].array.null_count(), 0);
}

#[test]
fn struct_in_a_struct_keeps_its_own_columns() {
    let batch = three_levels();
    let columns = by_name(&batch, &["top.middle"]).unwrap();
    let middle = columns[0].array.as_any().downcast_ref::<StructArray>().unwrap();
    let valid: Vec<bool> = (0..6).map(|row| middle.is_valid(row)).collect();
    assert_eq!(valid, vec![true, false, true, false, true, false]);
    // What lies below is not touched: the leaf still has its own nulls only.
    assert_eq!(
        values(&Column { array: middle.column(0).clone() }),
        vec![Some(0), Some(1), None, Some(3), Some(4), None]
    );
}

#[test]
fn top_level_column_is_unchanged() {
    let array = ints(vec![Some(1), None, Some(3)]);
    let batch = batch(vec![("a", true, array.clone())]);
    let columns = by_name(&batch, &["a"]).unwrap();
    assert_eq!(&columns[0].array, &array);
}

#[test]
fn sliced_columns_are_projected_in_their_slice() {
    let batch = three_levels().slice(2, 3);
    let columns = by_name(&batch, &["top.middle.leaf"]).unwrap();
    assert_eq!(values(&columns[0]), vec![None, None, Some(4)]);
}

#[test]
fn column_by_path() {
    let columns = columns_of(&three_levels());
    let leaf = RecordBatchProjector::get_column_by_field_index(&columns, &[0, 1, 1]).unwrap();
    assert_eq!(values(&leaf), vec![Some(0), None, None, None, Some(4), None]);
    let plain = RecordBatchProjector::get_column_by_field_index(&columns, &[0]).unwrap();
    assert_eq!(values(&plain)[5], Some(15));
}

#[test]
fn path_through_a_column_that_is_no_struct() {
    let columns = columns_of(&three_levels());
    for path in [vec![0, 0], vec![7, 0, 0], vec![0, 0, 1]] {
        let error = RecordBatchProjector::get_column_by_field_index(&columns, &path).unwrap_err();
        assert_eq!(error.kind(), ErrorKind::Unexpected);
        assert_eq!(error.message(), "Cannot convert Array to StructArray");
        assert!(error.context.is_empty());
        assert!(error.source.is_none());
    }
}

#[test]
fn paths_in_and_out_of_bounds() {
    let columns = columns_of(&three_levels());
    for path in [vec![0], vec![1], vec![0, 1], vec![1, 1], vec![0, 1, 1]] {
        assert!(RecordBatchProjector::path_fits(&columns, &path));
    }
    // Behind a column that is no struct there is nothing to be out of bounds of.
    assert!(RecordBatchProjector::path_fits(&columns, &[9, 0]));
    for path in [vec![], vec![2], vec![2, 1], vec![0, 2], vec![1, 1, 1], vec![0, 2, 1]] {
        assert!(!RecordBatchProjector::path_fits(&columns, &path));
    }
}

#[test]
fn column_without_room_for_nulls_is_refused() {
    let batch = batch(vec![
        ("a", true, ints(vec![Some(1), Some(2)])),
        ("n", true, Arc::new(NullArray::new(2)) as ArrayRef),
    ]);
    let error = by_name(&batch, &["a", "n"]).unwrap_err();
    assert_eq!(error.kind(), ErrorKind::Unexpected);
    assert_eq!(error.message(), "Arrow Schema Error");
    assert!(error.context.is_empty());
    match error.source {
        Some(Source::Arrow(ArrowError::InvalidArgumentError(text))) => {
            assert_eq!(text, "Arrays of type Null cannot contain a null bitmask")
        }
        other => panic!("unexpected cause {other:?}"),
    }
}

#[test]
fn nulls_in_a_dictionary_count() {
    let keys = Int32Array::from(vec![Some(0), Some(1), None, Some(0)]);
    let words = Arc::new(StringArray::from(vec![Some("x"), None]));
    let array = Arc::new(DictionaryArray::<Int32Type>::new(keys, words)) as ArrayRef;
    assert_eq!(array.null_count(), 1);
    let columns = by_name(&batch(vec![("d", true, array)]), &["d"]).unwrap();
    let valid: Vec<bool> = (0..4).map(|row| columns[0].array.is_valid(row)).collect();
    assert_eq!(valid, vec![true, false, false, true]);
}

#[test]
fn column_or_arrow_error_is_handed_on() {
    let array = ints(vec![Some(5)]);
    let built = RecordBatchProjector::column_built(Ok(Column { array: array.clone() }));
    assert_eq!(&built.unwrap().array, &array);

    let refused = ArrowError::ComputeError("sum".to_string());
    let error = RecordBatchProjector::column_built(Err(refused)).unwrap_err();
    assert_eq!(error.kind(), ErrorKind::Unexpected);
    assert_eq!(error.message(), "Arrow Schema Error");
    assert!(matches!(
        error.source,
        Some(Source::Arrow(ArrowError::ComputeError(text))) if text == "sum"
    ));
}

#[test]
fn batch_or_arrow_error_is_handed_on() {
    let batch = batch(vec![("a", true, ints(vec![Some(5)]))]);
    let built = RecordBatchProjector::batch_built(Ok(Batch { batch: batch.clone() }));
    assert_eq!(built.unwrap().batch, batch);

    let refused = ArrowError::SchemaError("no".to_string());
    let error = RecordBatchProjector::batch_built(Err(refused)).unwrap_err();
    assert_eq!(error.kind(), ErrorKind::DataInvalid);
    assert_eq!(error.message(), "Schema error: no");
    assert!(error.context.is_empty());
    assert!(error.source.is_none());
}

#[test]
fn projected_batch_has_the_projected_schema() {
    let batch = three_levels();
    let projector = projector(&batch, &["top.side", "plain"]);
    let projected = projector
        .project_batch(Batch { batch: batch.clone() })
        .unwrap()
        .batch;
    assert_eq!(&projected.schema(), projector.projected_schema_ref());
    assert_eq!(projected.schema().field(0).name(), "side");
    assert_eq!(projected.num_rows(), 6);
    assert_eq!(projected.column(1), batch.column(0));
}

#[test]
fn null_of_an_outer_struct_in_a_field_that_allows_none() {
    let inner = nest(
        vec![(int_field("leaf", false), ints(vec![Some(1), Some(2)]))],
        vec![true, false],
    );
    let batch = batch(vec![("top", true, inner)]);
    let projector = projector(&batch, &["top.leaf"]);
    let error = projector
        .project_batch(Batch { batch: batch.clone() })
        .unwrap_err();
    assert_eq!(error.kind(), ErrorKind::DataInvalid);
    assert_eq!(
        error.message(),
        "Invalid argument error: Column 'leaf' is declared as non-nullable but contains null values"
    );
    // The column itself is projected all the same.
    let columns = projector.project_column(&columns_of(&batch)).unwrap();
    assert_eq!(values(&columns[0]), vec![Some(1), None]);
}

#[test]
fn batch_of_no_columns_is_refused() {
    let batch = three_levels();
    let projector = projector(&batch, &[]);
    let error = projector.project_batch(Batch { batch }).unwrap_err();
    assert_eq!(error.kind(), ErrorKind::DataInvalid);
    assert_eq!(
        error.message(),
        "Invalid argument error: must either specify a row count or at least one column"
    );
}

#[test]
fn batch_of_other_types_is_refused() {
    let source = batch(vec![("a", true, ints(vec![Some(1)]))]);
    let other = batch(vec![("a", true, Arc::new(StringArray::from(vec!["x"])) as ArrayRef)]);
    let error = projector(&source, &["a"])
        .project_batch(Batch { batch: other })
        .unwrap_err();
    assert_eq!(error.kind(), ErrorKind::DataInvalid);
    assert_eq!(
        error.message(),
        "Invalid argument error: column types must match schema types, expected Int32 but found Utf8 at column index 0"
    );
}

#[test]
fn projecting_only_where_the_paths_fit() {
    let wide = three_levels();
    let narrow = batch(vec![("plain", false, ints(vec![Some(1)]))]);
    let projector = projector(&wide, &["plain", "top.side"]);

    assert!(projector.paths_fit(&columns_of(&wide)));
    assert!(!projector.paths_fit(&columns_of(&narrow)));
    assert!(projector.try_project_column(&columns_of(&narrow)).is_none());
    assert!(projector.try_project_batch(Batch { batch: narrow }).is_none());

    let columns = projector.try_project_column(&columns_of(&wide)).unwrap().unwrap();
    assert_eq!(values(&columns[0])[0], Some(10));
    let refused = projector.try_project_batch(Batch { batch: wide }).unwrap();
    assert_eq!(refused.unwrap().batch.num_columns(), 2);
}

#[test]
fn first_path_without_a_column_decides() {
    // The second path is out of bounds, but the first one fails before it counts.
    let source = three_levels();
    let projector = projector(&source, &["top.side", "top.middle.leaf"]);
    let flat = vec![
        Column { array: ints(vec![Some(1)]) },
        Column { array: ints(vec![Some(2)]) },
    ];
    assert!(projector.paths_fit(&flat));
    let error = projector.try_project_column(&flat).unwrap().unwrap_err();
    assert_eq!(error.message(), "Cannot convert Array to StructArray");
}

fn batch_with_ids() -> RecordBatch {
    let with_id = |field: Field, id: &str| {
        field.with_metadata(HashMap::from([(
            "PARQUET:field_id".to_string(),
            id.to_string(),
        )]))
    };
    let inner_field = with_id(int_field("inner", true), "3");
    let inner = nest(vec![(inner_field, ints(vec![Some(7), Some(8)]))], vec![false, true]);
    let fields = vec![
        with_id(int_field("a", true), "2"),
        with_id(Field::new("s", inner.data_type().clone(), true), "1"),
        with_id(int_field("b", true), "9"),
    ];
    RecordBatch::try_new(
        Arc::new(Schema::new(fields)),
        vec![ints(vec![Some(1), None]), inner, ints(vec![Some(5), Some(6)])],
    )
    .unwrap()
}

#[test]
fn columns_by_field_id() {
    let batch = Batch { batch: batch_with_ids() };
    let columns = RecordBatchProjector::project_columns_by_field_id(&batch, &[9, 3, 2]).unwrap();
    assert_eq!(columns.len(), 3);
    assert_eq!(values(&columns[0]), vec![Some(5), Some(6)]);
    assert_eq!(values(&columns[1]), vec![None, Some(8)]);
    assert_eq!(values(&columns[2]), vec![Some(1), None]);
}

#[test]
fn column_of_a_missing_field_id() {
    let batch = Batch { batch: batch_with_ids() };
    let error =
        RecordBatchProjector::project_columns_by_field_id(&batch, &[9, 4]).unwrap_err();
    assert_eq!(error.kind(), ErrorKind::Unexpected);
    assert_eq!(error.message(), "Field not found");
    assert_eq!(error.context, vec![("field_id".to_string(), "4".to_string())]);
}

#[test]
fn column_of_a_missing_name() {
    let error = by_name(&batch_with_ids(), &["a", "s.outer"]).unwrap_err();
    assert_eq!(error.message(), "Field not found");
    assert_eq!(error.context, vec![("field_name".to_string(), "s.outer".to_string())]);
    let error = by_name(&batch_with_ids(), &["a.x"]).unwrap_err();
    assert_eq!(
        error.message(),
        "Cannot resolve nested field by name through non-struct field"
    );
}

#[test]
fn same_column_can_be_asked_for_twice() {
    let columns = by_name(&batch_with_ids(), &["b", "b"]).unwrap();
    assert_eq!(values(&columns[0]), values(&columns[1]));
    assert!(by_name(&batch_with_ids(), &[]).unwrap().is_empty());
}

#[test]
fn columns_of_single_values_are_never_refused() {
    let long = "a text that is too long to be kept inline";
    let arrays: Vec<ArrayRef> = vec![
        Arc::new(BooleanArray::from(vec![Some(true), None, Some(false), Some(true)])),
        Arc::new(Float64Array::from(vec![Some(1.5), Some(2.5), None, Some(4.5)])),
        Arc::new(Date32Array::from(vec![1, 2, 3, 4])),
        Arc::new(TimestampMicrosecondArray::from(vec![1, 2, 3, 4])),
        Arc::new(Decimal128Array::from(vec![Some(1), None, Some(3), Some(4)])),
        Arc::new(StringArray::from(vec![Some("a"), None, Some(""), Some("ü")])),
        Arc::new(LargeStringArray::from(vec!["a", "b", "c", "d"])),
        Arc::new(StringViewArray::from(vec![Some(long), None, Some("c"), Some(long)])),
        Arc::new(BinaryArray::from(vec![Some(&b"a"[..]), None, Some(b"c"), Some(b"")])),
        Arc::new(BinaryViewArray::from(vec![Some(&b"a"[..]), None, Some(b"c"), Some(b"")])),
        Arc::new(FixedSizeBinaryArray::try_from_iter([[1, 2], [3, 4], [5, 6], [7, 8]].into_iter()).unwrap()),
    ];
    for array in arrays {
        let field = Field::new("leaf", array.data_type().clone(), true);
        let top = nest(vec![(field, array.clone())], vec![true, true, true, false]);
        for (offset, len) in [(0, 4), (1, 3), (2, 1), (4, 0)] {
            let batch = batch(vec![("top", true, top.clone())]).slice(offset, len);
            let projected = by_name(&batch, &["top.leaf"]).unwrap();
            let leaf = &projected[0].array;
            assert_eq!(leaf.data_type(), array.data_type());
            assert_eq!(leaf.len(), len);
            for row in 0..len {
                let hidden = offset + row == 3 || array.is_null(offset + row);
                assert_eq!(leaf.is_null(row), hidden);
                if !hidden {
                    assert_eq!(&leaf.slice(row, 1), &array.slice(offset + row, 1));
                }
            }
        }
    }
}
