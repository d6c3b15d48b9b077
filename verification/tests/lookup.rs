use std::cell::RefCell;
use std::collections::HashMap;
use std::sync::Arc;

use arrow_schema::{DataType, Field, Fields, Schema};
use record_batch_projector::error::Source;
use record_batch_projector::{
    parquet_field_id, Error, ErrorKind, FieldNode, RecordBatchProjector, SchemaTree,
};

fn leaf(name: &str) -> Field {
    Field::new(name, DataType::Int32, true)
}

fn nest(name: &str, fields: Vec<Field>) -> Field {
    Field::new(name, DataType::Struct(Fields::from(fields)), true)
}

fn with_id(field: Field, id: &str) -> Field {
    field.with_metadata(HashMap::from([(
        "PARQUET:field_id".to_string(),
        id.to_string(),
    )]))
}

fn tree(fields: Vec<Field>) -> SchemaTree {
    SchemaTree::from_arrow(&Schema::new(fields))
}

fn node(field: Field) -> Arc<FieldNode> {
    FieldNode::from_arrow(&Arc::new(field))
}

fn names(list: &[&str]) -> Vec<String> {
    list.iter().map(|name| name.to_string()).collect()
}

fn paths_by_name(tree: &SchemaTree, list: &[&str]) -> Vec<Vec<usize>> {
    RecordBatchProjector::new_by_names(tree, &names(list))
        .unwrap()
        .field_indices()
        .clone()
}

fn error_by_name(tree: &SchemaTree, list: &[&str]) -> Error {
    RecordBatchProjector::new_by_names(tree, &names(list)).unwrap_err()
}

fn by_metadata(tree: &SchemaTree, ids: &[i32]) -> Result<RecordBatchProjector, Error> {
    RecordBatchProjector::new(tree, ids, parquet_field_id, |_: &FieldNode| true)
}

fn context(key: &str, value: &str) -> Vec<(String, String)> {
    vec![(key.to_string(), value.to_string())]
}

#[test]
fn field_tree_mirrors_the_schema() {
    let schema = Schema::new(vec![
        with_id(leaf("a"), "1"),
        nest("b", vec![leaf("c"), nest("d", vec![])]),
    ]);
    let tree = SchemaTree::from_arrow(&schema);

    assert_eq!(tree.fields.len(), 2);
    assert_eq!(tree.fields[0].name, "a");
    assert_eq!(tree.fields[0].field_id, Some("1".to_string()));
    assert!(tree.fields[0].children.is_none());
    assert_eq!(tree.fields[0].arrow.as_ref(), schema.field(0));
    assert_eq!(tree.fields[1].name, "b");
    assert_eq!(tree.fields[1].field_id, None);
    let inner = tree.fields[1].children.as_ref().unwrap();
    assert_eq!(inner.len(), 2);
    assert_eq!(inner[0].name, "c");
    assert!(inner[0].children.is_none());
    assert_eq!(inner[1].children.as_ref().map(|list| list.len()), Some(0));
}

#[test]
fn lists_are_not_searched() {
    let list = Field::new("list", DataType::List(Arc::new(nest("item", vec![leaf("a")]))), true);
    assert!(node(list).children.is_none());
}

#[test]
fn field_id_from_metadata() {
    assert!(matches!(parquet_field_id(&node(leaf("a"))), Ok(None)));
    assert!(matches!(
        parquet_field_id(&node(with_id(leaf("a"), "42"))),
        Ok(Some(42))
    ));
    assert!(matches!(
        parquet_field_id(&node(with_id(leaf("a"), "-7"))),
        Ok(Some(-7))
    ));
    assert!(matches!(
        parquet_field_id(&node(with_id(leaf("a"), "+007"))),
        Ok(Some(7))
    ));
    assert!(matches!(
        parquet_field_id(&node(with_id(leaf("a"), "3000000000"))),
        Ok(Some(3_000_000_000))
    ));
    assert!(matches!(
        parquet_field_id(&node(with_id(leaf("a"), "-9223372036854775808"))),
        Ok(Some(i64::MIN))
    ));
}

#[test]
fn field_id_that_is_no_number() {
    for text in ["", "x", "+", "-", "1 ", " 1", "1.0", "9223372036854775808", "1_0"] {
        let error = parquet_field_id(&node(with_id(leaf("a"), text))).unwrap_err();
        assert_eq!(error.kind(), ErrorKind::DataInvalid);
        assert_eq!(error.message(), "Failed to parse field id");
        assert_eq!(error.context, context("value", text));
        assert!(matches!(error.source, Some(Source::ParseInt(_))));
    }
}

#[test]
fn other_metadata_is_no_field_id() {
    let field = leaf("a").with_metadata(HashMap::from([("id".to_string(), "1".to_string())]));
    assert!(matches!(parquet_field_id(&node(field)), Ok(None)));
}

#[test]
fn ids_are_found_at_every_level() {
    let tree = tree(vec![
        with_id(leaf("a"), "1"),
        nest(
            "b",
            vec![
                leaf("c"),
                with_id(nest("d", vec![leaf("e"), with_id(leaf("f"), "6")]), "4"),
            ],
        ),
        with_id(leaf("g"), "7"),
    ]);
    let projector = by_metadata(&tree, &[7, 6, 4, 1, 6]).unwrap();
    assert_eq!(
        projector.field_indices(),
        &vec![vec![2], vec![1, 1, 1], vec![1, 1], vec![0], vec![1, 1, 1]]
    );
    let fields = projector.projected_schema_ref().fields();
    let found: Vec<&str> = fields.iter().map(|field| field.name().as_str()).collect();
    assert_eq!(found, vec!["g", "f", "d", "a", "f"]);
    assert!(projector.projected_schema_ref().metadata().is_empty());
    assert_eq!(
        fields[2].as_ref(),
        &with_id(nest("d", vec![leaf("e"), with_id(leaf("f"), "6")]), "4")
    );
}

#[test]
fn first_field_of_an_id_counts() {
    // A struct comes before its own fields, and these before what follows it.
    let both = tree(vec![
        nest("a", vec![with_id(leaf("b"), "5")]),
        with_id(leaf("c"), "5"),
    ]);
    assert_eq!(by_metadata(&both, &[5]).unwrap().field_indices(), &vec![vec![0, 0]]);

    let outer = tree(vec![with_id(nest("a", vec![with_id(leaf("b"), "5")]), "5")]);
    assert_eq!(by_metadata(&outer, &[5]).unwrap().field_indices(), &vec![vec![0]]);
}

#[test]
fn missing_id_is_an_error() {
    let tree = tree(vec![with_id(leaf("a"), "1")]);
    let error = by_metadata(&tree, &[1, -2, 3]).unwrap_err();
    assert_eq!(error.kind(), ErrorKind::Unexpected);
    assert_eq!(error.message(), "Field not found");
    assert_eq!(error.context, context("field_id", "-2"));
    assert!(error.source.is_none());
}

#[test]
fn wide_id_does_not_hide_what_follows() {
    let tree = tree(vec![with_id(leaf("a"), "4294967297"), with_id(leaf("b"), "1")]);
    assert_eq!(by_metadata(&tree, &[1]).unwrap().field_indices(), &vec![vec![1]]);
}

#[test]
fn unparsable_id_ends_the_search_only_when_reached() {
    let tree = tree(vec![
        with_id(leaf("a"), "1"),
        nest("b", vec![with_id(leaf("c"), "oops")]),
        with_id(leaf("d"), "3"),
    ]);
    assert_eq!(by_metadata(&tree, &[1]).unwrap().field_indices(), &vec![vec![0]]);
    let error = by_metadata(&tree, &[1, 3]).unwrap_err();
    assert_eq!(error.message(), "Failed to parse field id");
    assert_eq!(error.context, context("value", "oops"));
}

#[test]
fn no_ids_and_no_names_project_nothing() {
    let tree = tree(vec![leaf("a")]);
    let by_id = by_metadata(&tree, &[]).unwrap();
    assert!(by_id.field_indices().is_empty());
    assert!(by_id.projected_schema_ref().fields().is_empty());
    let by_name = RecordBatchProjector::new_by_names(&tree, &[]).unwrap();
    assert_eq!(by_id, by_name);
}

#[test]
fn structs_are_entered_only_where_allowed() {
    let tree = tree(vec![
        nest("closed", vec![with_id(leaf("x"), "1")]),
        nest("open", vec![with_id(leaf("y"), "1")]),
    ]);
    let searchable = |field: &FieldNode| field.name == "open";
    let projector = RecordBatchProjector::new(&tree, &[1], parquet_field_id, searchable).unwrap();
    assert_eq!(projector.field_indices(), &vec![vec![0, 1]]);
}

#[test]
fn every_field_is_asked_once_in_order() {
    let tree = tree(vec![
        nest("a", vec![leaf("b"), leaf("c")]),
        leaf("d"),
        leaf("e"),
    ]);
    let asked = RefCell::new(Vec::new());
    let fetch = |field: &FieldNode| {
        asked.borrow_mut().push(field.name.clone());
        Ok(if field.name == "d" { Some(9) } else { None })
    };
    let projector = RecordBatchProjector::new(&tree, &[9], fetch, |_: &FieldNode| true).unwrap();
    assert_eq!(projector.field_indices(), &vec![vec![1]]);
    assert_eq!(asked.into_inner(), names(&["a", "b", "c", "d"]));
}

#[test]
fn id_search_puts_the_path_behind_what_is_there() {
    let tree = tree(vec![
        with_id(leaf("a"), "1"),
        nest("b", vec![with_id(leaf("c"), "3")]),
        with_id(leaf("d"), "bad"),
    ]);
    let enter = |_: &FieldNode| true;
    let mut path = vec![8, 9];

    let found =
        RecordBatchProjector::fetch_field_index(&tree.fields, &mut path, 3, &parquet_field_id, &enter)
            .unwrap()
            .unwrap();
    assert_eq!(found.name, "c");
    assert_eq!(path, vec![8, 9, 0, 1]);

    let failed =
        RecordBatchProjector::fetch_field_index(&tree.fields, &mut path, 4, &parquet_field_id, &enter);
    assert!(failed.is_err());
    assert_eq!(path, vec![8, 9, 0, 1]);

    let none = RecordBatchProjector::fetch_field_index(
        tree.fields[1].children.as_ref().unwrap(),
        &mut path,
        4,
        &parquet_field_id,
        &enter,
    );
    assert!(matches!(none, Ok(None)));
    assert_eq!(path, vec![8, 9, 0, 1]);
}

#[test]
fn name_search_puts_the_path_behind_what_is_there() {
    let tree = tree(vec![leaf("a"), nest("b", vec![leaf("x"), leaf("c")])]);
    let mut path = vec![5];

    let found = RecordBatchProjector::fetch_field_index_by_name(&tree.fields, &mut path, "b.c");
    assert_eq!(found.unwrap().unwrap().name, "c");
    assert_eq!(path, vec![5, 1, 1]);

    let none = RecordBatchProjector::fetch_field_index_by_name(&tree.fields, &mut path, "b.d");
    assert!(matches!(none, Ok(None)));
    let failed = RecordBatchProjector::fetch_field_index_by_name(&tree.fields, &mut path, "a.c");
    assert!(failed.is_err());
    assert_eq!(path, vec![5, 1, 1]);

    let first = "b".to_string();
    let found = RecordBatchProjector::fetch_field_index_by_name_path(
        &tree.fields,
        &mut path,
        &first,
        &names(&["x"]),
    );
    assert_eq!(found.unwrap().unwrap().name, "x");
    assert_eq!(path, vec![5, 1, 1, 0, 1]);
}

#[test]
fn names_along_a_path_find_it() {
    let tree = tree(vec![
        leaf("a"),
        nest("b", vec![leaf("c"), nest("d", vec![leaf("e"), leaf("f")])]),
    ]);
    assert_eq!(
        paths_by_name(&tree, &["b.d.f", "b.d", "b.c", "a", "b"]),
        vec![vec![1, 1, 1], vec![1, 1], vec![0, 1], vec![0], vec![1]]
    );
}

#[test]
fn first_field_of_a_name_counts() {
    // The search does not turn back to a later field of the same name.
    let tree = tree(vec![
        nest("a", vec![leaf("x")]),
        nest("a", vec![leaf("y")]),
        leaf("b"),
        nest("b", vec![leaf("z")]),
    ]);
    assert_eq!(paths_by_name(&tree, &["a", "a.x"]), vec![vec![0], vec![0, 0]]);

    let error = error_by_name(&tree, &["a.y"]);
    assert_eq!(error.message(), "Field not found");
    assert_eq!(error.context, context("field_name", "a.y"));

    let error = error_by_name(&tree, &["b.z"]);
    assert_eq!(error.kind(), ErrorKind::Unexpected);
    assert_eq!(
        error.message(),
        "Cannot resolve nested field by name through non-struct field"
    );
    assert_eq!(error.context, context("field_name", "b"));
}

#[test]
fn names_are_split_at_dots() {
    // A field whose own name holds a dot is not found by that name.
    let dotted = tree(vec![leaf("a.b")]);
    assert_eq!(error_by_name(&dotted, &["a.b"]).message(), "Field not found");

    let empty = tree(vec![nest("", vec![leaf("")]), leaf("a")]);
    assert_eq!(paths_by_name(&empty, &["", "."]), vec![vec![0], vec![0, 0]]);
    assert_eq!(
        error_by_name(&empty, &["a."]).message(),
        "Cannot resolve nested field by name through non-struct field"
    );
}

#[test]
fn first_missing_name_is_reported() {
    let tree = tree(vec![leaf("a")]);
    let error = error_by_name(&tree, &["a", "x", "a.b"]);
    assert_eq!(error.kind(), ErrorKind::Unexpected);
    assert_eq!(error.message(), "Field not found");
    assert_eq!(error.context, context("field_name", "x"));
}

#[test]
fn trees_of_one_schema_give_the_same_projectors() {
    let schema = Schema::new(vec![
        with_id(leaf("a"), "1"),
        nest("b", vec![with_id(leaf("c"), "2")]),
    ]);
    let left = SchemaTree::from_arrow(&schema);
    let right = SchemaTree::from_arrow(&schema.clone());
    assert_eq!(
        by_metadata(&left, &[2, 1]).unwrap(),
        by_metadata(&right, &[2, 1]).unwrap()
    );
    let list = names(&["b.c", "a"]);
    assert_eq!(
        RecordBatchProjector::new_by_names(&left, &list).unwrap(),
        RecordBatchProjector::new_by_names(&right, &list).unwrap()
    );
}

#[test]
fn converted_schema_or_its_error() {
    let failed = RecordBatchProjector::from_iceberg_schema(
        Err(Error::new(ErrorKind::DataInvalid, "no such type")),
        &[1],
    )
    .unwrap_err();
    assert_eq!(failed.kind(), ErrorKind::DataInvalid);
    assert_eq!(failed.message(), "no such type");

    let schema = Arc::new(Schema::new(vec![nest("a", vec![with_id(leaf("b"), "2")])]));
    let projector = RecordBatchProjector::from_iceberg_schema(Ok(schema.clone()), &[2]).unwrap();
    assert_eq!(projector.field_indices(), &vec![vec![0, 0]]);
    let error = RecordBatchProjector::from_iceberg_schema(Ok(schema), &[3]).unwrap_err();
    assert_eq!(error.context, context("field_id", "3"));
}

#[test]
fn cloned_projector_is_equal() {
    let tree = tree(vec![leaf("a"), nest("b", vec![leaf("c")])]);
    let projector = RecordBatchProjector::new_by_names(&tree, &names(&["b.c", "a"])).unwrap();
    let other = projector.clone();
    assert_eq!(other, projector);
    assert_eq!(other.field_indices(), &vec![vec![0, 1], vec![0]]);
    assert!(Arc::ptr_eq(
        other.projected_schema_ref(),
        projector.projected_schema_ref()
    ));
}
