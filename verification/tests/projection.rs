use std::collections::HashMap;
use std::sync::Arc;

use arrow_array::{Array, ArrayRef, Int32Array, RecordBatch, StringArray, StructArray};
use arrow_buffer::NullBuffer;
use arrow_schema::{DataType, Field, Fields, Schema};
use record_batch_projector::{
    Batch, Error, ErrorKind, FieldNode, RecordBatchProjector, SchemaTree,
};

fn inner_fields() -> Vec<Field> {
    vec![
        Field::new("inner_field1", DataType::Int32, false),
        Field::new("inner_field2", DataType::Utf8, false),
    ]
}

fn nested_schema() -> Arc<Schema> {
    let fields = vec![
        Field::new("field1", DataType::Int32, false),
        Field::new(
            "field2",
            DataType::Struct(Fields::from(inner_fields())),
            false,
        ),
    ];
    Arc::new(Schema::new(fields))
}

fn id_by_name(field: &FieldNode) -> Result<Option<i64>, Error> {
    match field.name.as_str() {
        "field1" => Ok(Some(1)),
        "field2" => Ok(Some(2)),
        "inner_field1" => Ok(Some(3)),
        "inner_field2" => Ok(Some(4)),
        _ => Err(Error::new(ErrorKind::Unexpected, "Field id not found")),
    }
}

fn struct_column() -> ArrayRef {
    let inner_fields = inner_fields();
    let inner_int_array = Arc::new(Int32Array::from(vec![4, 5, 6])) as ArrayRef;
    let inner_string_array = Arc::new(StringArray::from(vec!["x", "y", "z"])) as ArrayRef;
    Arc::new(StructArray::from(vec![
        (Arc::new(inner_fields[0].clone()), inner_int_array),
        (Arc::new(inner_fields[1].clone()), inner_string_array),
    ])) as ArrayRef
}

#[test]
fn test_record_batch_projector_nested_level() {
    let schema = nested_schema();
    let projector = RecordBatchProjector::new(
        &SchemaTree::from_arrow(&schema),
        &[1, 3],
        id_by_name,
        |_: &FieldNode| true,
    )
    .unwrap();

    assert_eq!(projector.field_indices().len(), 2);
    assert_eq!(projector.field_indices()[0], vec![0]);
    assert_eq!(projector.field_indices()[1], vec![0, 1]);

    let int_array = Arc::new(Int32Array::from(vec![1, 2, 3])) as ArrayRef;
    let batch = RecordBatch::try_new(schema, vec![int_array, struct_column()]).unwrap();

    let projected_batch = projector.project_batch(Batch { batch }).unwrap().batch;
    assert_eq!(projected_batch.num_columns(), 2);
    let projected_int_array = projected_batch
        .column(0)
        .as_any()
        .downcast_ref::<Int32Array>()
        .unwrap();
    let projected_inner_int_array = projected_batch
        .column(1)
        .as_any()
        .downcast_ref::<Int32Array>()
        .unwrap();

    assert_eq!(projected_int_array.values(), &[1, 2, 3]);
    assert_eq!(projected_inner_int_array.values(), &[4, 5, 6]);
}

#[test]
fn test_field_not_found() {
    let schema = nested_schema();
    let projector = RecordBatchProjector::new(
        &SchemaTree::from_arrow(&schema),
        &[1, 5],
        id_by_name,
        |_: &FieldNode| true,
    );

    assert!(projector.is_err());
}

#[test]
fn test_field_not_reachable() {
    let tree = SchemaTree::from_arrow(&nested_schema());
    let projector = RecordBatchProjector::new(&tree, &[3], id_by_name, |_: &FieldNode| false);
    assert!(projector.is_err());

    let projector = RecordBatchProjector::new(&tree, &[3], id_by_name, |_: &FieldNode| true);
    assert!(projector.is_ok());
}

#[test]
fn test_record_batch_projector_name_lookup_top_level_and_nested() {
    let fields = vec![
        Field::new(
            "field2",
            DataType::Struct(Fields::from(inner_fields())),
            false,
        ),
        Field::new("field1", DataType::Int32, false),
    ];
    let schema = Arc::new(Schema::new(fields));
    let field_names = vec!["field1".to_string(), "field2.inner_field2".to_string()];

    let projector =
        RecordBatchProjector::new_by_names(&SchemaTree::from_arrow(&schema), &field_names).unwrap();

    assert_eq!(projector.field_indices().len(), 2);
    assert_eq!(projector.field_indices()[0], vec![1]);
    assert_eq!(projector.field_indices()[1], vec![1, 0]);
    assert_eq!(projector.projected_schema_ref().fields().len(), 2);
    assert_eq!(projector.projected_schema_ref().field(0).name(), "field1");
    assert_eq!(
        projector.projected_schema_ref().field(1).name(),
        "inner_field2"
    );

    let int_array = Arc::new(Int32Array::from(vec![1, 2, 3])) as ArrayRef;
    let batch = RecordBatch::try_new(schema, vec![struct_column(), int_array]).unwrap();

    let projected_batch = projector.project_batch(Batch { batch }).unwrap().batch;
    assert_eq!(projected_batch.num_columns(), 2);
    let projected_int_array = projected_batch
        .column(0)
        .as_any()
        .downcast_ref::<Int32Array>()
        .unwrap();
    let projected_inner_string_array = projected_batch
        .column(1)
        .as_any()
        .downcast_ref::<StringArray>()
        .unwrap();

    assert_eq!(projected_int_array.values(), &[1, 2, 3]);
    assert_eq!(projected_inner_string_array.value(0), "x");
    assert_eq!(projected_inner_string_array.value(1), "y");
    assert_eq!(projected_inner_string_array.value(2), "z");
}

#[test]
fn test_project_columns_by_name_uses_runtime_schema_order() {
    let schema = Arc::new(Schema::new(vec![
        Field::new("b", DataType::Int32, false),
        Field::new("a", DataType::Int32, false),
    ]));
    let batch = RecordBatch::try_new(
        schema,
        vec![
            Arc::new(Int32Array::from(vec![1, 2, 3])) as ArrayRef,
            Arc::new(Int32Array::from(vec![10, 20, 30])) as ArrayRef,
        ],
    )
    .unwrap();
    let field_names = vec!["a".to_string(), "b".to_string()];

    let columns =
        RecordBatchProjector::project_columns_by_name(&Batch { batch }, &field_names).unwrap();

    assert_eq!(columns.len(), 2);
    let a = columns[0]
        .array
        .as_any()
        .downcast_ref::<Int32Array>()
        .unwrap();
    let b = columns[1]
        .array
        .as_any()
        .downcast_ref::<Int32Array>()
        .unwrap();
    assert_eq!(a.values(), &[10, 20, 30]);
    assert_eq!(b.values(), &[1, 2, 3]);
}

#[test]
fn test_project_columns_by_name_preserves_nested_nulls() {
    let inner_fields = Fields::from(vec![Field::new("inner_field", DataType::Int32, true)]);
    let fields = vec![Field::new(
        "field2",
        DataType::Struct(inner_fields.clone()),
        true,
    )];
    let schema = Arc::new(Schema::new(fields));
    let inner_int_array = Arc::new(Int32Array::from(vec![Some(1), Some(2), None]));
    let nulls = NullBuffer::from(vec![true, false, true]);
    let struct_array = Arc::new(StructArray::new(
        inner_fields,
        vec![inner_int_array],
        Some(nulls),
    )) as ArrayRef;
    let batch = RecordBatch::try_new(schema, vec![struct_array]).unwrap();
    let field_names = vec!["field2.inner_field".to_string()];

    let columns =
        RecordBatchProjector::project_columns_by_name(&Batch { batch }, &field_names).unwrap();

    assert_eq!(columns.len(), 1);
    let projected = columns[0]
        .array
        .as_any()
        .downcast_ref::<Int32Array>()
        .unwrap();
    assert_eq!(projected.len(), 3);
    assert_eq!(projected.value(0), 1);
    assert!(projected.is_null(1));
    assert!(projected.is_null(2));
}

#[test]
fn test_name_field_not_found() {
    let schema = Schema::new(vec![Field::new("field1", DataType::Int32, false)]);
    let field_names = vec!["missing".to_string()];

    let projector =
        RecordBatchProjector::new_by_names(&SchemaTree::from_arrow(&schema), &field_names);

    assert!(projector.is_err());
    assert!(projector
        .unwrap_err()
        .to_string()
        .contains("Field not found"));
}

#[test]
fn test_nested_name_field_not_found() {
    let inner_fields = vec![Field::new("inner_field1", DataType::Int32, false)];
    let schema = Schema::new(vec![Field::new(
        "field2",
        DataType::Struct(Fields::from(inner_fields)),
        false,
    )]);
    let field_names = vec!["field2.missing".to_string()];

    let projector =
        RecordBatchProjector::new_by_names(&SchemaTree::from_arrow(&schema), &field_names);

    assert!(projector.is_err());
    assert!(projector
        .unwrap_err()
        .to_string()
        .contains("Field not found"));
}

#[test]
fn test_nested_name_through_non_struct_field() {
    let schema = Schema::new(vec![Field::new("field1", DataType::Int32, false)]);
    let field_names = vec!["field1.inner_field".to_string()];

    let projector =
        RecordBatchProjector::new_by_names(&SchemaTree::from_arrow(&schema), &field_names);

    assert!(projector.is_err());
    assert!(projector
        .unwrap_err()
        .to_string()
        .contains("Cannot resolve nested field by name through non-struct field"));
}

fn with_id(field: Field, id: &str) -> Field {
    field.with_metadata(HashMap::from([(
        "PARQUET:field_id".to_string(),
        id.to_string(),
    )]))
}

#[test]
fn test_from_iceberg_schema() {
    let schema = Schema::new(vec![
        with_id(Field::new("id", DataType::Int32, false), "1"),
        with_id(Field::new("name", DataType::Utf8, false), "2"),
        with_id(Field::new("age", DataType::Int32, true), "3"),
    ]);

    let projector =
        RecordBatchProjector::from_iceberg_schema(Ok(Arc::new(schema)), &[1, 3]).unwrap();

    assert_eq!(projector.field_indices().len(), 2);
    assert_eq!(projector.projected_schema_ref().fields().len(), 2);
    assert_eq!(projector.projected_schema_ref().field(0).name(), "id");
    assert_eq!(projector.projected_schema_ref().field(1).name(), "age");
}
