use std::collections::HashMap;
use std::sync::Arc;

use arrow_array::builder::{Int32Builder, ListBuilder, MapBuilder, StringBuilder, UInt8Builder};
use arrow_array::types::Int32Type;
use arrow_array::{
    Array, ArrayRef, BinaryArray, DictionaryArray, FixedSizeListArray, Int32Array, ListArray,
    ListViewArray, NullArray, RecordBatch, StringArray, StructArray,
};
use arrow_buffer::{NullBuffer, OffsetBuffer};
use arrow_schema::{DataType, Field, Fields, Schema};
use record_batch_projector::{Batch, Column, Error, ErrorKind, RecordBatchProjector, SchemaTree};

fn ints(values: Vec<Option<i32>>) -> ArrayRef {
    Arc::new(Int32Array::from(values))
}

fn with_id(field: Field, id: &str) -> Field {
    field.with_metadata(HashMap::from([(
        "PARQUET:field_id".to_string(),
        id.to_string(),
    )]))
}

fn batch(columns: Vec<(Field, ArrayRef)>) -> RecordBatch {
    let (fields, arrays): (Vec<Field>, Vec<ArrayRef>) = columns.into_iter().unzip();
    RecordBatch::try_new(Arc::new(Schema::new(fields)), arrays).unwrap()
}

fn names(list: &[&str]) -> Vec<String> {
    list.iter().map(|name| name.to_string()).collect()
}

fn by_name(batch: &RecordBatch, list: &[&str]) -> Result<Vec<Column>, Error> {
    RecordBatchProjector::project_columns_by_name(&Batch { batch: batch.clone() }, &names(list))
}

fn by_id(batch: &RecordBatch, ids: &[i32]) -> Result<Vec<Column>, Error> {
    RecordBatchProjector::project_columns_by_field_id(&Batch { batch: batch.clone() }, ids)
}

fn arrays(columns: Result<Vec<Column>, Error>) -> Vec<ArrayRef> {
    columns.unwrap().into_iter().map(|column| column.array).collect()
}

fn columns_of(batch: &RecordBatch) -> Vec<Column> {
    batch
        .columns()
        .iter()
        .map(|array| Column { array: array.clone() })
        .collect()
}

fn projector(batch: &RecordBatch, list: &[&str]) -> RecordBatchProjector {
    RecordBatchProjector::new_by_names(&SchemaTree::from_arrow(&batch.schema()), &names(list))
        .unwrap()
}

/// A struct column with a null in its last row and one field, `leaf`.
fn below_null(leaf: &ArrayRef) -> RecordBatch {
    let field = Field::new("leaf", leaf.data_type().clone(), true);
    let mut valid = vec![true; leaf.len()];
    valid[leaf.len() - 1] = false;
    let top = StructArray::new(
        Fields::from(vec![field]),
        vec![leaf.clone()],
        Some(NullBuffer::from(valid)),
    );
    batch(vec![(
        Field::new("top", top.data_type().clone(), true),
        Arc::new(top),
    )])
}

fn nested_arrays() -> Vec<ArrayRef> {
    let item = Arc::new(Field::new_list_field(DataType::Int32, true));
    let required = Arc::new(Field::new_list_field(DataType::Int32, false));
    let list = ListArray::new(
        item.clone(),
        OffsetBuffer::from_lengths([2, 0, 1]),
        ints(vec![Some(1), None, Some(3)]),
        Some(NullBuffer::from(vec![true, false, true])),
    );
    let strict = ListArray::new(
        required,
        OffsetBuffer::from_lengths([1, 1, 1]),
        ints(vec![Some(1), Some(2), Some(3)]),
        None,
    );
    let pairs = FixedSizeListArray::new(
        item,
        2,
        ints(vec![Some(1), None, Some(3), Some(4), Some(5), Some(6)]),
        None,
    );
    let mut map = MapBuilder::new(None, StringBuilder::new(), Int32Builder::new());
    for (key, value) in [("a", 1), ("b", 2), ("c", 3)] {
        map.keys().append_value(key);
        map.values().append_value(value);
        map.append(true).unwrap();
    }
    let words = Arc::new(StringArray::from(vec!["x", "y"]));
    let keys = Int32Array::from(vec![Some(0), None, Some(1)]);
    let dictionary = DictionaryArray::<Int32Type>::new(keys, words);
    let inner = StructArray::from(vec![(
        Arc::new(Field::new("i", DataType::Int32, false)),
        ints(vec![Some(1), Some(2), Some(3)]),
    )]);
    vec![
        Arc::new(list),
        Arc::new(strict),
        Arc::new(pairs),
        Arc::new(map.finish()),
        Arc::new(dictionary),
        Arc::new(inner),
    ]
}

#[test]
fn nested_columns_are_projected() {
    for leaf in nested_arrays() {
        let columns = arrays(by_name(&below_null(&leaf), &["top.leaf"]));
        assert_eq!(columns[0].data_type(), leaf.data_type());
        assert_eq!(columns[0].len(), 3);
        assert!(columns[0].is_null(2));
        assert_eq!(&columns[0].slice(0, 2), &leaf.slice(0, 2));

        // The struct column itself is projected with its own null.
        let columns = arrays(by_name(&below_null(&leaf), &["top"]));
        assert_eq!(&columns[0], below_null(&leaf).column(0));
    }
}

#[test]
fn column_without_values_below_a_struct() {
    let leaf: ArrayRef = Arc::new(NullArray::new(3));
    let batch = below_null(&leaf);
    assert_eq!(by_name(&batch, &["top.leaf"]).unwrap_err().message(), "Arrow Schema Error");
    let columns = arrays(by_name(&batch, &["top"]));
    assert_eq!(&columns[0], batch.column(0));
}

/// A struct column `o` whose own type allows a null that the type of its column `s`
/// does not.
fn relaxed() -> RecordBatch {
    let strict = Fields::from(vec![Field::new("x", DataType::Int32, false)]);
    let loose = Fields::from(vec![Field::new("x", DataType::Int32, true)]);
    let s = StructArray::new(strict.clone(), vec![ints(vec![Some(1), Some(2)])], None);
    let inner = batch(vec![(Field::new("s", DataType::Struct(strict), false), Arc::new(s))]);
    let schema = Schema::new(vec![Field::new("s", DataType::Struct(loose), false)]);
    let outer = StructArray::from(inner.with_schema(Arc::new(schema)).unwrap());
    batch(vec![(Field::new("o", outer.data_type().clone(), false), Arc::new(outer))])
}

#[test]
fn types_that_differ_below_are_refused() {
    let batch = relaxed();
    // The inner column passes, but is not of the type that the schema gives it.
    let columns = arrays(by_name(&batch, &["o.s"]));
    assert_eq!(columns[0].len(), 2);
    let error = projector(&batch, &["o.s"])
        .project_batch(Batch { batch: batch.clone() })
        .unwrap_err();
    assert_eq!(error.kind(), ErrorKind::DataInvalid);
    // The outer one does not pass Arrow's checks.
    assert_eq!(by_name(&batch, &["o"]).unwrap_err().message(), "Arrow Schema Error");
    // Deeper down the types agree again.
    let columns = arrays(by_name(&batch, &["o.s.x"]));
    assert_eq!(&columns[0], &ints(vec![Some(1), Some(2)]));
}

#[test]
fn list_with_a_hidden_null_is_refused() {
    let item = Arc::new(Field::new_list_field(DataType::Int32, false));
    let fixed = FixedSizeListArray::new(
        item,
        1,
        ints(vec![Some(1), None]),
        Some(NullBuffer::from(vec![true, false])),
    );
    let list: ArrayRef = Arc::new(ListArray::from(fixed));
    let batch = batch(vec![(Field::new("l", list.data_type().clone(), true), list)]);
    let error = by_name(&batch, &["l"]).unwrap_err();
    assert_eq!(error.kind(), ErrorKind::Unexpected);
    assert_eq!(error.message(), "Arrow Schema Error");
}

fn assert_refused(array: ArrayRef) {
    let batch = batch(vec![(Field::new("c", array.data_type().clone(), true), array)]);
    let error = by_name(&batch, &["c"]).unwrap_err();
    assert_eq!(error.kind(), ErrorKind::Unexpected);
    assert_eq!(error.message(), "Arrow Schema Error");
}

#[test]
fn list_view_with_wrapped_offsets_is_refused() {
    let rows = 32_769;
    let width = 65_536;
    let number = Arc::new(Field::new_list_field(DataType::Int32, true));
    let inner =
        FixedSizeListArray::try_new_with_length(number, 0, ints(vec![]), None, width * rows)
            .unwrap();
    let item = Arc::new(Field::new_list_field(inner.data_type().clone(), true));
    let outer = FixedSizeListArray::new(item, width as i32, Arc::new(inner), None);
    assert_eq!(outer.len(), rows);
    assert_refused(Arc::new(ListViewArray::from(outer)));
}

/// A list of bytes whose offsets go back: its builder's values were taken away
/// between two rows.
fn list_that_goes_back() -> ListArray {
    let mut builder = ListBuilder::new(UInt8Builder::new());
    builder.values().append_slice(b"ab");
    builder.append(true);
    builder.values().finish();
    builder.values().append_slice(b"c");
    builder.append(true);
    builder.values().append_slice(b"de");
    builder.append(true);
    builder.finish()
}

#[test]
fn offsets_that_go_back_are_refused() {
    let list = list_that_goes_back();
    assert_eq!(list.value_offsets(), [0, 2, 1, 3]);
    let bytes = BinaryArray::from(list_that_goes_back());
    let text = StringArray::try_from_binary(bytes.clone()).unwrap();
    assert_refused(Arc::new(list));
    assert_refused(Arc::new(bytes));
    assert_refused(Arc::new(text));
}

fn three() -> Vec<(Field, ArrayRef)> {
    let inner_field = with_id(Field::new("x", DataType::Int32, true), "4");
    let s = StructArray::new(
        Fields::from(vec![inner_field]),
        vec![ints(vec![Some(7), Some(8)])],
        Some(NullBuffer::from(vec![false, true])),
    );
    vec![
        (with_id(Field::new("a", DataType::Int32, true), "1"), ints(vec![Some(1), None])),
        (with_id(Field::new("b", DataType::Int32, true), "2"), ints(vec![Some(3), Some(4)])),
        (with_id(Field::new("s", s.data_type().clone(), true), "3"), Arc::new(s)),
    ]
}

fn rearranged() -> Vec<(Field, ArrayRef)> {
    let mut columns = three();
    columns.rotate_left(1);
    columns
}

#[test]
fn order_does_not_matter_to_names() {
    let list = ["s.x", "a", "s", "b"];
    assert_eq!(
        arrays(by_name(&batch(three()), &list)),
        arrays(by_name(&batch(rearranged()), &list))
    );
}

#[test]
fn order_and_names_do_not_matter_to_ids() {
    let ids = [4, 1, 3, 2];
    let renamed = rearranged()
        .into_iter()
        .zip(["b", "q", "a"])
        .map(|((field, array), name)| (field.with_name(name), array))
        .collect();
    let expected = arrays(by_id(&batch(three()), &ids));
    assert_eq!(arrays(by_id(&batch(rearranged()), &ids)), expected);
    assert_eq!(arrays(by_id(&batch(renamed), &ids)), expected);
}

#[test]
fn metadata_does_not_matter_to_names() {
    let list = ["s.x", "b", "a"];
    let changed = three()
        .into_iter()
        .map(|(field, array)| (with_id(field, "no id"), array))
        .collect();
    assert_eq!(
        arrays(by_name(&batch(three()), &list)),
        arrays(by_name(&batch(changed), &list))
    );
}

#[test]
fn more_names_append_columns() {
    let batch = batch(three());
    let mut front = arrays(by_name(&batch, &["b", "s.x"]));
    front.extend(arrays(by_name(&batch, &["a"])));
    assert_eq!(arrays(by_name(&batch, &["b", "s.x", "a"])), front);
}

#[test]
fn columns_behind_do_not_matter() {
    let source = batch(three());
    let projector = projector(&source, &["a", "s.x"]);
    let mut columns = columns_of(&source);
    let expected = arrays(projector.project_column(&columns));
    columns.push(Column { array: Arc::new(StringArray::from(vec!["more"])) });
    assert_eq!(arrays(projector.project_column(&columns)), expected);
}

#[test]
fn batch_and_columns_agree() {
    let source = batch(three());
    let projector = projector(&source, &["s.x", "s", "a"]);
    let columns = arrays(projector.project_column(&columns_of(&source)));
    let projected = projector
        .try_project_batch(Batch { batch: source.clone() })
        .unwrap()
        .unwrap()
        .batch;
    assert_eq!(projected.columns(), &columns[..]);
    assert_eq!(projected.num_rows(), source.num_rows());
    assert_eq!(&projected.schema(), projector.projected_schema_ref());
}

#[test]
fn path_behind_a_refused_column_does_not_count() {
    let nothing: ArrayRef = Arc::new(NullArray::new(2));
    let wide = batch(vec![
        (Field::new("n", DataType::Null, true), nothing.clone()),
        (Field::new("a", DataType::Int32, true), ints(vec![Some(1), None])),
    ]);
    let projector = projector(&wide, &["n", "a"]);
    let narrow = vec![Column { array: nothing }];
    assert!(projector.paths_fit(&narrow));
    let error = projector.try_project_column(&narrow).unwrap().unwrap_err();
    assert_eq!(error.message(), "Arrow Schema Error");
}
