//! What looking up several fields or columns gives, said of looking up each of them.

use std::sync::Arc;

use vstd::prelude::*;

use crate::chains::{schema_path_in_tree, tree_path_in_schema, tree_says};
use crate::columns::{projection, projections, projections_in_order};
use crate::contents::{ColumnModel, FieldModel, SchemaModel, TypeModel};
use crate::error::{Error, ErrorKind, ErrorView, SourceKind};
use crate::fit::{columns_for, hit_paths, hit_schema, lemma_all_reachable};
use crate::found::{
    field_found_by_its_name, id_is_the_number, id_search_ends, not_found_says,
};
use crate::lookup::{
    add_hit, field_at, find_all_by_id, find_all_by_metadata_id, find_all_by_name,
    find_by_dotted_name, find_by_id, id_hits_in_order, id_not_found, may_find, may_find_all,
    name_hits_in_order, name_not_found, precedes, reachable, search_error, Hits, Outcome,
};
use crate::outside::{
    batch_model, batch_refusal, column_model, column_models, field_model, field_models, Batch,
    Column,
};
use crate::projector::{
    batch_projected, built_from, column_view, columns_view, path_views, RecordBatchProjector,
};
use crate::schema::{metadata_id, trees_mirror, FieldNode};
use crate::text::{decimal_reads_back, decimal_text, parsed_i64};

verus! {

/// Contracts speak of columns, fields and paths one by one, in order.
pub proof fn views_in_order(
    columns: Seq<Column>,
    fields: Seq<Arc<arrow_schema::Field>>,
    paths: Seq<Vec<usize>>,
)
    ensures
        column_models(columns) == Seq::new(columns.len(), |k: int| column_model(columns[k])),
        field_models(fields) == Seq::new(fields.len(), |k: int| field_model(*fields[k])),
        path_views(paths) == Seq::new(paths.len(), |k: int| paths[k]@),
{
    assert(column_models(columns) =~= Seq::new(columns.len(), |k: int| column_model(columns[k])));
    assert(field_models(fields) =~= Seq::new(fields.len(), |k: int| field_model(*fields[k])));
    assert(path_views(paths) =~= Seq::new(paths.len(), |k: int| paths[k]@));
}

/// Contracts speak of a column, or of columns in order, as they are returned.
pub proof fn results_as_returned(one: Result<Column, Error>, all: Result<Vec<Column>, Error>)
    ensures
        match one {
            Ok(column) => column_view(one) == Ok::<ColumnModel, ErrorView>(column_model(column)),
            Err(error) => column_view(one) == Err::<ColumnModel, ErrorView>(error@),
        },
        match all {
            Ok(columns) => columns_view(all) == Ok::<Seq<ColumnModel>, ErrorView>(
                Seq::new(columns@.len(), |k: int| column_model(columns@[k])),
            ),
            Err(error) => columns_view(all) == Err::<Seq<ColumnModel>, ErrorView>(error@),
        },
{
    if let Ok(columns) = all {
        assert(column_models(columns@) =~= Seq::new(
            columns@.len(),
            |k: int| column_model(columns@[k]),
        ));
    }
}

/// A projector is built from hits exactly if it has their paths, and a schema of the
/// Arrow fields that they are, in order, without metadata of its own. An error that
/// takes the place of the hits is handed on.
pub proof fn projector_has_hits(result: Result<RecordBatchProjector, Error>, hits: Hits)
    ensures
        built_from(result, hits) <==> match result {
            Ok(projector) => hits matches Ok(found) && projector.paths() == Seq::new(
                found.len(),
                |k: int| found[k].0,
            ) && projector.schema() == (SchemaModel {
                fields: Seq::new(found.len(), |k: int| field_model(*found[k].1.arrow)),
                metadata: Map::empty(),
            }),
            Err(error) => hits == Hits::Err(error@),
        },
{
    if let Ok(found) = hits {
        assert(hit_paths(found) =~= Seq::new(found.len(), |k: int| found[k].0));
        assert(hit_schema(found).fields =~= Seq::new(
            found.len(),
            |k: int| field_model(*found[k].1.arrow),
        ));
    }
}

/// How projecting a record batch ends, whatever it gives: with the error of the
/// projections if they fail; with a batch of them under this schema if there is at
/// least one, each has the type of its field, no null where that allows none, and all
/// have one length; and else with the error that says what Arrow says.
pub proof fn batch_of_projections(
    columns: Seq<ColumnModel>,
    paths: Seq<Seq<usize>>,
    schema: SchemaModel,
    result: Result<Batch, Error>,
)
    ensures
        batch_projected(columns, paths, schema, result) <==> match projections(columns, paths) {
            Err(view) => result matches Err(error) && error@ == view,
            Ok(projected) => if projected.len() > 0 && projected.len() == schema.fields.len()
                && forall|k: int|
                #![trigger projected[k]]
                0 <= k < projected.len() ==> {
                    &&& projected[k].data_type == schema.fields[k].data_type
                    &&& projected[k].marks_nulls ==> schema.fields[k].nullable
                    &&& projected[k].rows.len() == projected[0].rows.len()
                } {
                result matches Ok(batch) && batch_model(batch).schema == schema && batch_model(
                    batch,
                ).columns == projected
            } else {
                result matches Err(error) && error@.kind == ErrorKind::DataInvalid && error@.message
                    == batch_refusal(schema, projected) && error@.context.len() == 0
                    && error@.source is None
            },
        },
{
    if let Err(error) = result {
        if error@.context.len() == 0 {
            assert(error@.context =~= Seq::empty());
        }
    }
}

/// The columns for hits are the projections along their paths, one for each hit, in
/// order; or the error of the first that fails; or the error that took the place of the
/// hits.
pub proof fn columns_are_the_projections(columns: Seq<ColumnModel>, hits: Hits)
    ensures
        match hits {
            Err(error) => columns_for(columns, hits) == Err::<Seq<ColumnModel>, ErrorView>(error),
            Ok(found) => match columns_for(columns, hits) {
                Ok(projected) => {
                    &&& projected.len() == found.len()
                    &&& forall|k: int|
                        #![trigger projected[k]]
                        0 <= k < found.len() ==> projection(columns, found[k].0) == Ok::<
                            ColumnModel,
                            ErrorView,
                        >(projected[k])
                },
                Err(error) => exists|k: int|
                    #![trigger found[k]]
                    {
                        &&& 0 <= k < found.len()
                        &&& forall|j: int|
                            #![trigger found[j]]
                            0 <= j < k ==> projection(columns, found[j].0) is Ok
                        &&& projection(columns, found[k].0) == Err::<ColumnModel, ErrorView>(error)
                    },
            },
        },
{
    if let Ok(found) = hits {
        let paths = hit_paths(found);
        projections_in_order(columns, paths);
        match columns_for(columns, hits) {
            Ok(projected) => {
                assert forall|k: int|
                    #![trigger projected[k]]
                    0 <= k < found.len() implies projection(columns, found[k].0) == Ok::<
                    ColumnModel,
                    ErrorView,
                >(projected[k]) by {
                    assert(paths[k] == found[k].0);
                }
            },
            Err(error) => {
                let k = choose|k: int|
                    #![trigger paths[k]]
                    {
                        &&& 0 <= k < paths.len()
                        &&& forall|j: int|
                            #![trigger paths[j]]
                            0 <= j < k ==> projection(columns, paths[j]) is Ok
                        &&& projection(columns, paths[k]) == Err::<ColumnModel, ErrorView>(error)
                    };
                assert(paths[k] == found[k].0);
                assert forall|j: int| #![trigger found[j]] 0 <= j < k implies projection(
                    columns,
                    found[j].0,
                ) is Ok by {
                    assert(paths[j] == found[j].0);
                }
            },
        }
    }
}

/// Looking columns up by names: if it succeeds, there is one column for each name, in
/// order, and each is the projection along the path at which the search for its name
/// found a field. If it fails, then with the error of the first search that found no
/// field, or, if all did, with that of the first projection that fails.
pub proof fn name_lookup_each(
    trees: Seq<Arc<FieldNode>>,
    columns: Seq<ColumnModel>,
    names: Seq<Seq<char>>,
)
    ensures
        match columns_for(columns, find_all_by_name(trees, names)) {
            Ok(projected) => {
                &&& projected.len() == names.len()
                &&& forall|k: int|
                    #![trigger projected[k]]
                    #![trigger names[k]]
                    0 <= k < names.len() ==> (find_by_dotted_name(
                        trees,
                        names[k],
                    ) matches Outcome::Found { path, .. } && projection(columns, path) == Ok::<
                        ColumnModel,
                        ErrorView,
                    >(projected[k]))
            },
            Err(error) => exists|k: int|
                #![trigger names[k]]
                0 <= k < names.len() && match find_by_dotted_name(trees, names[k]) {
                    Outcome::Found { path, .. } => {
                        &&& projection(columns, path) == Err::<ColumnModel, ErrorView>(error)
                        &&& forall|j: int|
                            #![trigger names[j]]
                            0 <= j < names.len() ==> (find_by_dotted_name(
                                trees,
                                names[j],
                            ) matches Outcome::Found { path: at, .. } && (j < k ==> projection(
                                columns,
                                at,
                            ) is Ok))
                    },
                    Outcome::Failed(failed) => {
                        &&& error == failed
                        &&& forall|j: int|
                            #![trigger names[j]]
                            0 <= j < k ==> find_by_dotted_name(trees, names[j]) is Found
                    },
                    Outcome::Missing => {
                        &&& error.kind == ErrorKind::Unexpected
                        &&& error.message == "Field not found"@
                        &&& error.context == seq![("field_name"@, names[k])]
                        &&& error.source is None
                        &&& forall|j: int|
                            #![trigger names[j]]
                            0 <= j < k ==> find_by_dotted_name(trees, names[j]) is Found
                    },
                },
        },
{
    let hits = find_all_by_name(trees, names);
    name_hits_in_order(trees, names);
    columns_are_the_projections(columns, hits);
    match hits {
        Ok(found) => {
            assert forall|k: int| #![trigger names[k]] 0 <= k < names.len() implies (
            find_by_dotted_name(trees, names[k]) == (Outcome::Found {
                path: found[k].0,
                field: found[k].1,
            })) by {}
            match columns_for(columns, hits) {
                Ok(projected) => {
                    assert forall|k: int|
                        #![trigger projected[k]]
                        #![trigger names[k]]
                        0 <= k < names.len() implies (find_by_dotted_name(
                        trees,
                        names[k],
                    ) matches Outcome::Found { path, .. } && projection(columns, path) == Ok::<
                        ColumnModel,
                        ErrorView,
                    >(projected[k])) by {
                        assert(projection(columns, found[k].0) == Ok::<ColumnModel, ErrorView>(
                            projected[k],
                        ));
                    }
                },
                Err(error) => {
                    let k = choose|k: int|
                        #![trigger found[k]]
                        {
                            &&& 0 <= k < found.len()
                            &&& forall|j: int|
                                #![trigger found[j]]
                                0 <= j < k ==> projection(columns, found[j].0) is Ok
                            &&& projection(columns, found[k].0) == Err::<ColumnModel, ErrorView>(
                                error,
                            )
                        };
                    assert(find_by_dotted_name(trees, names[k]) is Found);
                    assert forall|j: int| #![trigger names[j]] 0 <= j < names.len() implies (
                    find_by_dotted_name(trees, names[j]) matches Outcome::Found { path: at, .. }
                        && (j < k ==> projection(columns, at) is Ok)) by {
                        assert(found[j].0 == found[j].0);
                    }
                },
            }
        },
        Err(error) => {
            let k = choose|k: int|
                #![trigger names[k]]
                {
                    &&& 0 <= k < names.len()
                    &&& forall|j: int|
                        #![trigger names[j]]
                        0 <= j < k ==> find_by_dotted_name(trees, names[j]) is Found
                    &&& !(find_by_dotted_name(trees, names[k]) is Found)
                    &&& error == search_error(
                        find_by_dotted_name(trees, names[k]),
                        name_not_found(names[k]),
                    )
                };
            not_found_says(0, names[k]);
            assert(names[k] == names[k]);
        },
    }
}

/// Looking columns up by names, all in one call, is looking them up one by one: the
/// column for each name is the one that a lookup of that name alone gives, and it
/// succeeds if every one of these lookups does.
pub proof fn name_lookups_one_by_one(
    trees: Seq<Arc<FieldNode>>,
    columns: Seq<ColumnModel>,
    names: Seq<Seq<char>>,
)
    ensures
        match columns_for(columns, find_all_by_name(trees, names)) {
            Ok(projected) => projected.len() == names.len() && forall|k: int|
                #![trigger projected[k]]
                0 <= k < names.len() ==> columns_for(
                    columns,
                    find_all_by_name(trees, seq![names[k]]),
                ) == Ok::<Seq<ColumnModel>, ErrorView>(seq![projected[k]]),
            Err(error) => exists|k: int|
                #![trigger names[k]]
                0 <= k < names.len() && columns_for(
                    columns,
                    find_all_by_name(trees, seq![names[k]]),
                ) == Err::<Seq<ColumnModel>, ErrorView>(error),
        },
{
    name_lookup_each(trees, columns, names);
    match columns_for(columns, find_all_by_name(trees, names)) {
        Ok(projected) => {
            assert forall|k: int|
                #![trigger projected[k]]
                0 <= k < names.len() implies columns_for(
                columns,
                find_all_by_name(trees, seq![names[k]]),
            ) == Ok::<Seq<ColumnModel>, ErrorView>(seq![projected[k]]) by {
                lemma_name_alone(trees, columns, names[k]);
            }
        },
        Err(error) => {
            let k = choose|k: int|
                #![trigger names[k]]
                0 <= k < names.len() && match find_by_dotted_name(trees, names[k]) {
                    Outcome::Found { path, .. } => {
                        &&& projection(columns, path) == Err::<ColumnModel, ErrorView>(error)
                        &&& forall|j: int|
                            #![trigger names[j]]
                            0 <= j < names.len() ==> (find_by_dotted_name(
                                trees,
                                names[j],
                            ) matches Outcome::Found { path: at, .. } && (j < k ==> projection(
                                columns,
                                at,
                            ) is Ok))
                    },
                    Outcome::Failed(failed) => {
                        &&& error == failed
                        &&& forall|j: int|
                            #![trigger names[j]]
                            0 <= j < k ==> find_by_dotted_name(trees, names[j]) is Found
                    },
                    Outcome::Missing => {
                        &&& error.kind == ErrorKind::Unexpected
                        &&& error.message == "Field not found"@
                        &&& error.context == seq![("field_name"@, names[k])]
                        &&& error.source is None
                        &&& forall|j: int|
                            #![trigger names[j]]
                            0 <= j < k ==> find_by_dotted_name(trees, names[j]) is Found
                    },
                };
            lemma_name_alone(trees, columns, names[k]);
            not_found_says(0, names[k]);
        },
    }
}

proof fn lemma_name_alone(trees: Seq<Arc<FieldNode>>, columns: Seq<ColumnModel>, name: Seq<char>)
    ensures
        columns_for(columns, find_all_by_name(trees, seq![name])) == match find_by_dotted_name(
            trees,
            name,
        ) {
            Outcome::Found { path, .. } => match projection(columns, path) {
                Ok(column) => Ok(seq![column]),
                Err(error) => Err(error),
            },
            Outcome::Missing => Err(name_not_found(name)),
            Outcome::Failed(error) => Err(error),
        },
{
    let names = seq![name];
    assert(names.drop_last() =~= Seq::empty());
    assert(names.last() == name);
    assert(find_all_by_name(trees, names.drop_last()) == Hits::Ok(Seq::empty()));
    if let Outcome::Found { path, field } = find_by_dotted_name(trees, name) {
        let hits = Seq::empty().push((path, field));
        assert(find_all_by_name(trees, names) == Hits::Ok(hits));
        lemma_hit_alone(columns, path, field);
    }
}

proof fn lemma_hit_alone(columns: Seq<ColumnModel>, path: Seq<usize>, field: Arc<FieldNode>)
    ensures
        columns_for(columns, Hits::Ok(Seq::empty().push((path, field)))) == match projection(
            columns,
            path,
        ) {
            Ok(column) => Ok(seq![column]),
            Err(error) => Err(error),
        },
{
    let paths = hit_paths(Seq::empty().push((path, field)));
    assert(paths =~= seq![path]);
    assert(paths.drop_last() =~= Seq::empty());
    assert(paths.last() == path);
    assert(projections(columns, paths.drop_last()) == Ok::<Seq<ColumnModel>, ErrorView>(
        Seq::empty(),
    ));
    if let Ok(column) = projection(columns, path) {
        assert(Seq::empty().push(column) =~= seq![column]);
    }
}

/// What searching for an id in the metadata gives, said of the texts there. A field
/// that is found has a text that parses as the id, and every field before it, in order,
/// has none, or one that parses as another number. If no field is found, then either
/// all fields that there are have none or another number, or one has a text that does
/// not parse, and none before it has the id.
pub proof fn metadata_search_ends(trees: Seq<Arc<FieldNode>>, target: i64)
    requires
        trees.len() <= usize::MAX,
    ensures
        match find_by_id(
            trees,
            0,
            target,
            |field: FieldNode| metadata_id(field),
            |field: FieldNode| true,
        ) {
            Outcome::Found { path, field } => {
                &&& field_at(trees, path) == Some(field)
                &&& field.field_id matches Some(text) && parsed_i64(text@) == Some(target)
                &&& forall|other: Seq<usize>|
                    #![trigger field_at(trees, other)]
                    precedes(other, path) ==> (field_at(trees, other) matches Some(node) ==> (
                    node.field_id matches Some(text) ==> (parsed_i64(text@) matches Some(id) && id
                        != target)))
            },
            Outcome::Missing => forall|other: Seq<usize>|
                #![trigger field_at(trees, other)]
                field_at(trees, other) matches Some(node) ==> (node.field_id matches Some(text)
                    ==> (parsed_i64(text@) matches Some(id) && id != target)),
            Outcome::Failed(error) => exists|path: Seq<usize>|
                #![trigger field_at(trees, path)]
                {
                    &&& field_at(trees, path) matches Some(node) && node.field_id matches Some(text)
                        && parsed_i64(text@) is None && error.kind == ErrorKind::DataInvalid
                        && error.message == "Failed to parse field id"@ && error.context
                        == seq![("value"@, text@)] && error.source == Some(SourceKind::ParseInt)
                    &&& forall|other: Seq<usize>|
                        #![trigger field_at(trees, other)]
                        precedes(other, path) ==> (field_at(trees, other) matches Some(node) ==> (
                        node.field_id matches Some(text) ==> (parsed_i64(text@) matches Some(id)
                            && id != target)))
                },
        },
{
    let ids = |field: FieldNode| metadata_id(field);
    let enters = |field: FieldNode| true;
    id_search_ends(trees, target, ids, enters);
    assert forall|other: Seq<usize>|
        #![trigger field_at(trees, other)]
        field_at(trees, other) is Some implies reachable(trees, other, enters) && ((ids(
        *field_at(trees, other)->Some_0,
    ) matches Ok(id) && id != Some(target)) ==> (field_at(
        trees,
        other,
    )->Some_0.field_id matches Some(text) ==> (parsed_i64(text@) matches Some(id) && id
        != target))) by {
        lemma_all_reachable(trees, other);
        id_is_the_number(field_at(trees, other)->Some_0);
    }
    match find_by_id(trees, 0, target, ids, enters) {
        Outcome::Found { path, field } => {
            id_is_the_number(field);
        },
        Outcome::Missing => {},
        Outcome::Failed(error) => {
            let path = choose|path: Seq<usize>|
                #![trigger reachable(trees, path, enters)]
                {
                    &&& reachable(trees, path, enters)
                    &&& ids(*field_at(trees, path)->Some_0) == Err::<Option<i64>, ErrorView>(error)
                    &&& forall|other: Seq<usize>|
                        #![trigger reachable(trees, other, enters)]
                        reachable(trees, other, enters) && precedes(other, path) ==> (ids(
                            *field_at(trees, other)->Some_0,
                        ) matches Ok(id) && id != Some(target))
                };
            id_is_the_number(field_at(trees, path)->Some_0);
            assert(field_at(trees, path) is Some);
        },
    }
}

/// Looking columns up by ids: if it succeeds, there is one column for each id, in order,
/// and each is the projection along the path at which the search for its id found a
/// field. If it fails, then with the error of the first search that found no field, or,
/// if all did, with that of the first projection that fails.
pub proof fn id_lookup_each(
    trees: Seq<Arc<FieldNode>>,
    columns: Seq<ColumnModel>,
    targets: Seq<i32>,
)
    ensures
        ({
            let ids = |field: FieldNode| metadata_id(field);
            let enters = |field: FieldNode| true;
            match columns_for(columns, find_all_by_metadata_id(trees, targets)) {
                Ok(projected) => {
                    &&& projected.len() == targets.len()
                    &&& forall|k: int|
                        #![trigger projected[k]]
                        #![trigger targets[k]]
                        0 <= k < targets.len() ==> (find_by_id(
                            trees,
                            0,
                            targets[k] as i64,
                            ids,
                            enters,
                        ) matches Outcome::Found { path, .. } && projection(columns, path) == Ok::<
                            ColumnModel,
                            ErrorView,
                        >(projected[k]))
                },
                Err(error) => exists|k: int|
                    #![trigger targets[k]]
                    0 <= k < targets.len() && match find_by_id(
                        trees,
                        0,
                        targets[k] as i64,
                        ids,
                        enters,
                    ) {
                        Outcome::Found { path, .. } => {
                            &&& projection(columns, path) == Err::<ColumnModel, ErrorView>(error)
                            &&& forall|j: int|
                                #![trigger targets[j]]
                                0 <= j < targets.len() ==> (find_by_id(
                                    trees,
                                    0,
                                    targets[j] as i64,
                                    ids,
                                    enters,
                                ) matches Outcome::Found { path: at, .. } && (j < k ==> projection(
                                    columns,
                                    at,
                                ) is Ok))
                        },
                        Outcome::Failed(failed) => {
                            &&& error == failed
                            &&& forall|j: int|
                                #![trigger targets[j]]
                                0 <= j < k ==> find_by_id(
                                    trees,
                                    0,
                                    targets[j] as i64,
                                    ids,
                                    enters,
                                ) is Found
                        },
                        Outcome::Missing => {
                            &&& error.kind == ErrorKind::Unexpected
                            &&& error.message == "Field not found"@
                            &&& error.context == seq![
                                ("field_id"@, decimal_text(targets[k] as int)),
                            ]
                            &&& error.source is None
                            &&& forall|j: int|
                                #![trigger targets[j]]
                                0 <= j < k ==> find_by_id(
                                    trees,
                                    0,
                                    targets[j] as i64,
                                    ids,
                                    enters,
                                ) is Found
                        },
                    },
            }
        }),
{
    let ids = |field: FieldNode| metadata_id(field);
    let enters = |field: FieldNode| true;
    let hits = find_all_by_metadata_id(trees, targets);
    assert(hits == find_all_by_id(trees, targets, ids, enters));
    id_hits_in_order(trees, targets, ids, enters);
    columns_are_the_projections(columns, hits);
    match hits {
        Ok(found) => {
            match columns_for(columns, hits) {
                Ok(projected) => {
                    assert forall|k: int|
                        #![trigger projected[k]]
                        #![trigger targets[k]]
                        0 <= k < targets.len() implies (find_by_id(
                        trees,
                        0,
                        targets[k] as i64,
                        ids,
                        enters,
                    ) matches Outcome::Found { path, .. } && projection(columns, path) == Ok::<
                        ColumnModel,
                        ErrorView,
                    >(projected[k])) by {
                        assert(projection(columns, found[k].0) == Ok::<ColumnModel, ErrorView>(
                            projected[k],
                        ));
                    }
                },
                Err(error) => {
                    let k = choose|k: int|
                        #![trigger found[k]]
                        {
                            &&& 0 <= k < found.len()
                            &&& forall|j: int|
                                #![trigger found[j]]
                                0 <= j < k ==> projection(columns, found[j].0) is Ok
                            &&& projection(columns, found[k].0) == Err::<ColumnModel, ErrorView>(
                                error,
                            )
                        };
                    assert(find_by_id(trees, 0, targets[k] as i64, ids, enters) is Found);
                    assert forall|j: int| #![trigger targets[j]] 0 <= j < targets.len() implies (
                    find_by_id(trees, 0, targets[j] as i64, ids, enters) matches Outcome::Found {
                        path: at,
                        ..
                    } && (j < k ==> projection(columns, at) is Ok)) by {
                        assert(found[j].0 == found[j].0);
                    }
                },
            }
        },
        Err(error) => {
            let k = choose|k: int|
                #![trigger targets[k]]
                {
                    &&& 0 <= k < targets.len()
                    &&& forall|j: int|
                        #![trigger targets[j]]
                        0 <= j < k ==> find_by_id(
                            trees,
                            0,
                            targets[j] as i64,
                            ids,
                            enters,
                        ) is Found
                    &&& !(find_by_id(trees, 0, targets[k] as i64, ids, enters) is Found)
                    &&& error == search_error(
                        find_by_id(trees, 0, targets[k] as i64, ids, enters),
                        id_not_found(targets[k]),
                    )
                };
            not_found_says(targets[k], Seq::empty());
            assert(targets[k] == targets[k]);
        },
    }
}

/// Looking columns up by ids, all in one call, is looking them up one by one: the column
/// for each id is the one that a lookup of that id alone gives, and it succeeds if every
/// one of these lookups does.
pub proof fn id_lookups_one_by_one(
    trees: Seq<Arc<FieldNode>>,
    columns: Seq<ColumnModel>,
    targets: Seq<i32>,
)
    ensures
        match columns_for(columns, find_all_by_metadata_id(trees, targets)) {
            Ok(projected) => projected.len() == targets.len() && forall|k: int|
                #![trigger projected[k]]
                0 <= k < targets.len() ==> columns_for(
                    columns,
                    find_all_by_metadata_id(trees, seq![targets[k]]),
                ) == Ok::<Seq<ColumnModel>, ErrorView>(seq![projected[k]]),
            Err(error) => exists|k: int|
                #![trigger targets[k]]
                0 <= k < targets.len() && columns_for(
                    columns,
                    find_all_by_metadata_id(trees, seq![targets[k]]),
                ) == Err::<Seq<ColumnModel>, ErrorView>(error),
        },
{
    let ids = |field: FieldNode| metadata_id(field);
    let enters = |field: FieldNode| true;
    let hits = find_all_by_metadata_id(trees, targets);
    assert(hits == find_all_by_id(trees, targets, ids, enters));
    id_hits_in_order(trees, targets, ids, enters);
    columns_are_the_projections(columns, hits);
    assert forall|k: int| #![trigger targets[k]] 0 <= k < targets.len() implies columns_for(
        columns,
        find_all_by_metadata_id(trees, seq![targets[k]]),
    ) == (match find_by_id(trees, 0, targets[k] as i64, ids, enters) {
        Outcome::Found { path, .. } => match projection(columns, path) {
            Ok(column) => Ok(seq![column]),
            Err(error) => Err(error),
        },
        Outcome::Missing => Err(id_not_found(targets[k])),
        Outcome::Failed(error) => Err(error),
    }) by {
        lemma_id_alone(trees, columns, targets[k]);
    }
    match hits {
        Ok(found) => match columns_for(columns, hits) {
            Ok(projected) => {
                assert forall|k: int|
                    #![trigger projected[k]]
                    0 <= k < targets.len() implies columns_for(
                    columns,
                    find_all_by_metadata_id(trees, seq![targets[k]]),
                ) == Ok::<Seq<ColumnModel>, ErrorView>(seq![projected[k]]) by {
                    assert(projection(columns, found[k].0) == Ok::<ColumnModel, ErrorView>(
                        projected[k],
                    ));
                }
            },
            Err(error) => {
                let k = choose|k: int|
                    #![trigger found[k]]
                    {
                        &&& 0 <= k < found.len()
                        &&& forall|j: int|
                            #![trigger found[j]]
                            0 <= j < k ==> projection(columns, found[j].0) is Ok
                        &&& projection(columns, found[k].0) == Err::<ColumnModel, ErrorView>(error)
                    };
                assert(targets[k] == targets[k]);
            },
        },
        Err(error) => {},
    }
}

proof fn lemma_id_alone(trees: Seq<Arc<FieldNode>>, columns: Seq<ColumnModel>, target: i32)
    ensures
        columns_for(columns, find_all_by_metadata_id(trees, seq![target])) == match find_by_id(
            trees,
            0,
            target as i64,
            |field: FieldNode| metadata_id(field),
            |field: FieldNode| true,
        ) {
            Outcome::Found { path, .. } => match projection(columns, path) {
                Ok(column) => Ok(seq![column]),
                Err(error) => Err(error),
            },
            Outcome::Missing => Err(id_not_found(target)),
            Outcome::Failed(error) => Err(error),
        },
{
    let ids = |field: FieldNode| metadata_id(field);
    let enters = |field: FieldNode| true;
    let targets = seq![target];
    assert(targets.drop_last() =~= Seq::empty());
    assert(targets.last() == target);
    assert(find_all_by_id(trees, targets.drop_last(), ids, enters) == Hits::Ok(Seq::empty()));
    assert(find_all_by_metadata_id(trees, targets) == find_all_by_id(trees, targets, ids, enters));
    if let Outcome::Found { path, field } = find_by_id(trees, 0, target as i64, ids, enters) {
        let hits = Seq::empty().push((path, field));
        assert(find_all_by_metadata_id(trees, targets) == Hits::Ok(hits));
        lemma_hit_alone(columns, path, field);
    }
}

/// Looking up an id that a field of the schema has, and no other, gives the projection
/// along the path of positions, through struct types, that leads to that field. This is
/// said of the schema alone: `siblings` are the fields among which each position of the
/// path counts, and the id is read in the metadata under `PARQUET:field_id`.
pub proof fn id_lookup_follows_schema(
    trees: Seq<Arc<FieldNode>>,
    fields: Seq<FieldModel>,
    columns: Seq<ColumnModel>,
    path: Seq<usize>,
    siblings: Seq<Seq<FieldModel>>,
    id: i32,
)
    requires
        trees.len() <= usize::MAX,
        trees_mirror(trees, fields),
        path.len() > 0,
        siblings.len() == path.len(),
        siblings.last() == fields,
        forall|k: int| 0 <= k < path.len() ==> path[k] < (#[trigger] siblings[k]).len(),
        forall|k: int, above: int|
            #![trigger siblings[k], siblings[above]]
            0 <= k < above == k + 1 < path.len() ==> siblings[above][path[above] as int].data_type
                == TypeModel::Struct(siblings[k]),
        siblings[0][path[0] as int].metadata.contains_pair(
            "PARQUET:field_id"@,
            decimal_text(id as int),
        ),
        forall|other: Seq<usize>, others: Seq<Seq<FieldModel>>|
            #![trigger others[0][other[0] as int]]
            {
                &&& other.len() > 0
                &&& others.len() == other.len()
                &&& others.last() == fields
                &&& forall|k: int| 0 <= k < other.len() ==> other[k] < (#[trigger] others[k]).len()
                &&& forall|k: int, above: int|
                    #![trigger others[k], others[above]]
                    0 <= k < above == k + 1 < other.len() ==> others[above][other[
                    above] as int].data_type == TypeModel::Struct(others[k])
                &&& others[0][other[0] as int].metadata.contains_key("PARQUET:field_id"@)
            } ==> (parsed_i64(
                others[0][other[0] as int].metadata["PARQUET:field_id"@],
            ) matches Some(n) && (n == id ==> other == path)),
    ensures
        columns_for(columns, find_all_by_metadata_id(trees, seq![id])) == match projection(
            columns,
            path,
        ) {
            Ok(column) => Ok(seq![column]),
            Err(error) => Err(error),
        },
{
    schema_path_in_tree(trees, fields, path, siblings);
    let node = field_at(trees, path)->Some_0;
    tree_says(node, siblings[0][path[0] as int]);
    decimal_reads_back(id as i64);
    assert(node.field_id matches Some(text) && parsed_i64(text@) == Some(id as i64));
    assert forall|other: Seq<usize>|
        #![trigger field_at(trees, other)]
        field_at(trees, other) is Some implies (field_at(
        trees,
        other,
    )->Some_0.field_id matches Some(text) ==> (
    parsed_i64(text@) matches Some(n) && (n == id ==> other == path))) by {
        if let Some(found) = field_at(trees, other) {
            let others = tree_path_in_schema(trees, fields, other);
            let model = others[0][other[0] as int];
            tree_says(found, model);
        }
    }
    metadata_search_ends(trees, id as i64);
    lemma_id_alone(trees, columns, id);
}

/// Looking up an id that no field of the schema has, where every id there parses, fails
/// with the error that names the id.
pub proof fn id_not_in_schema(
    trees: Seq<Arc<FieldNode>>,
    fields: Seq<FieldModel>,
    columns: Seq<ColumnModel>,
    id: i32,
)
    requires
        trees.len() <= usize::MAX,
        trees_mirror(trees, fields),
        forall|other: Seq<usize>, others: Seq<Seq<FieldModel>>|
            #![trigger others[0][other[0] as int]]
            {
                &&& other.len() > 0
                &&& others.len() == other.len()
                &&& others.last() == fields
                &&& forall|k: int| 0 <= k < other.len() ==> other[k] < (#[trigger] others[k]).len()
                &&& forall|k: int, above: int|
                    #![trigger others[k], others[above]]
                    0 <= k < above == k + 1 < other.len() ==> others[above][other[
                    above] as int].data_type == TypeModel::Struct(others[k])
                &&& others[0][other[0] as int].metadata.contains_key("PARQUET:field_id"@)
            } ==> (parsed_i64(
                others[0][other[0] as int].metadata["PARQUET:field_id"@],
            ) matches Some(n) && n != id),
    ensures
        columns_for(columns, find_all_by_metadata_id(trees, seq![id])) matches Err(error)
            && error.kind == ErrorKind::Unexpected && error.message == "Field not found"@
            && error.context == seq![("field_id"@, decimal_text(id as int))]
            && error.source is None,
{
    assert forall|other: Seq<usize>|
        #![trigger field_at(trees, other)]
        field_at(trees, other) is Some implies (field_at(
        trees,
        other,
    )->Some_0.field_id matches Some(text) ==> (
    parsed_i64(text@) matches Some(n) && n != id)) by {
        if let Some(found) = field_at(trees, other) {
            let others = tree_path_in_schema(trees, fields, other);
            let model = others[0][other[0] as int];
            tree_says(found, model);
        }
    }
    metadata_search_ends(trees, id as i64);
    lemma_id_alone(trees, columns, id);
    not_found_says(id, Seq::empty());
}

/// Searches for ids, whatever the fields answer: one hit for each id, in order, each of
/// which a search for that id may end with; or an error that a search for one of the ids
/// may end with, or that says that it found no field.
pub proof fn any_hits_each<F1, F2>(
    fields: Seq<Arc<FieldNode>>,
    targets: Seq<i32>,
    fetch: F1,
    searchable: F2,
    hits: Hits,
) where F1: Fn(&FieldNode) -> Result<Option<i64>, Error>, F2: Fn(&FieldNode) -> bool
    requires
        may_find_all(fields, targets, fetch, searchable, hits),
    ensures
        match hits {
            Ok(found) => {
                &&& found.len() == targets.len()
                &&& forall|k: int|
                    #![trigger found[k]]
                    0 <= k < targets.len() ==> may_find(
                        fields,
                        0,
                        targets[k] as i64,
                        fetch,
                        searchable,
                        Outcome::Found { path: found[k].0, field: found[k].1 },
                    )
            },
            Err(error) => exists|k: int|
                #![trigger targets[k]]
                0 <= k < targets.len() && (may_find(
                    fields,
                    0,
                    targets[k] as i64,
                    fetch,
                    searchable,
                    Outcome::Failed(error),
                ) || (may_find(
                    fields,
                    0,
                    targets[k] as i64,
                    fetch,
                    searchable,
                    Outcome::Missing,
                ) && error.kind == ErrorKind::Unexpected && error.message == "Field not found"@
                    && error.context == seq![("field_id"@, decimal_text(targets[k] as int))]
                    && error.source is None)),
        },
    decreases targets.len(),
{
    if targets.len() > 0 {
        let front = targets.drop_last();
        let last = targets.last();
        let (before, outcome) = choose|before: Hits, outcome: Outcome|
            {
                &&& may_find_all(fields, front, fetch, searchable, before)
                &&& before is Ok ==> may_find(
                    fields,
                    0,
                    last as i64,
                    fetch,
                    searchable,
                    outcome,
                )
                &&& hits == #[trigger] add_hit(before, outcome, id_not_found(last))
            };
        any_hits_each(fields, front, fetch, searchable, before);
        not_found_says(last, Seq::empty());
        assert(targets[targets.len() - 1] == last);
        match before {
            Ok(earlier) => {
                if let Ok(found) = hits {
                    assert forall|k: int|
                        #![trigger found[k]]
                        0 <= k < targets.len() implies may_find(
                        fields,
                        0,
                        targets[k] as i64,
                        fetch,
                        searchable,
                        Outcome::Found { path: found[k].0, field: found[k].1 },
                    ) by {
                        if k < front.len() {
                            assert(found[k] == earlier[k]);
                            assert(front[k] == targets[k]);
                        }
                    }
                }
            },
            Err(error) => {
                let k = choose|k: int|
                    #![trigger front[k]]
                    0 <= k < front.len() && (may_find(
                        fields,
                        0,
                        front[k] as i64,
                        fetch,
                        searchable,
                        Outcome::Failed(error),
                    ) || (may_find(
                        fields,
                        0,
                        front[k] as i64,
                        fetch,
                        searchable,
                        Outcome::Missing,
                    ) && error.kind == ErrorKind::Unexpected && error.message == "Field not found"@
                        && error.context == seq![("field_id"@, decimal_text(front[k] as int))]
                        && error.source is None));
                assert(targets[k] == front[k]);
            },
        }
    }
}

/// Looking up the dot-separated name of a field of the schema gives the projection along
/// the path of positions, through struct types, that leads to that field, if no name on
/// the way holds a dot and no field at a lower position has one of these names. This is
/// said of the schema alone: `siblings` are the fields among which each position of the
/// path counts.
pub proof fn name_lookup_follows_schema(
    trees: Seq<Arc<FieldNode>>,
    fields: Seq<FieldModel>,
    columns: Seq<ColumnModel>,
    path: Seq<usize>,
    siblings: Seq<Seq<FieldModel>>,
    name: Seq<char>,
)
    requires
        trees.len() <= usize::MAX,
        trees_mirror(trees, fields),
        path.len() > 0,
        siblings.len() == path.len(),
        siblings.last() == fields,
        forall|k: int| 0 <= k < path.len() ==> path[k] < (#[trigger] siblings[k]).len(),
        forall|k: int, above: int|
            #![trigger siblings[k], siblings[above]]
            0 <= k < above == k + 1 < path.len() ==> siblings[above][path[above] as int].data_type
                == TypeModel::Struct(siblings[k]),
        forall|k: int|
            0 <= k < path.len() ==> !(#[trigger] siblings[k])[path[k] as int].name.contains('.'),
        forall|k: int, lower: int|
            #![trigger siblings[k][lower]]
            0 <= k < path.len() && 0 <= lower < path[k] ==> siblings[k][lower].name
                != siblings[k][path[k] as int].name,
        ({
            let names = Seq::new(
                path.len(),
                |i: int|
                    siblings[path.len() - 1 - i][path[path.len() - 1 - i] as int].name,
            );
            name == names.skip(1).fold_left(
                names[0],
                |text: Seq<char>, piece: Seq<char>| text.push('.') + piece,
            )
        }),
    ensures
        columns_for(columns, find_all_by_name(trees, seq![name])) == match projection(
            columns,
            path,
        ) {
            Ok(column) => Ok(seq![column]),
            Err(error) => Err(error),
        },
{
    assert forall|k: int| 0 <= k < path.len() implies ({
        &&& field_at(trees, #[trigger] path.skip(k)) is Some
        &&& field_at(trees, path.skip(k))->Some_0.name@ == siblings[k][path[k] as int].name
    }) by {
        lemma_schema_level(trees, fields, path, siblings, k, path[k]);
        assert(path.skip(k).update(0, path[k]) =~= path.skip(k));
    }
    assert forall|k: int, lower: usize|
        #![trigger path.skip(k).update(0, lower)]
        0 <= k < path.len() && lower < path[k] implies field_at(
        trees,
        path.skip(k).update(0, lower),
    )->Some_0.name@ != field_at(trees, path.skip(k))->Some_0.name@ by {
        lemma_schema_level(trees, fields, path, siblings, k, lower);
        assert(siblings[k][lower as int].name != siblings[k][path[k] as int].name);
    }
    let names = Seq::new(
        path.len(),
        |i: int| field_at(trees, path.skip(path.len() - 1 - i))->Some_0.name@,
    );
    let others = Seq::new(
        path.len(),
        |i: int| siblings[path.len() - 1 - i][path[path.len() - 1 - i] as int].name,
    );
    assert(names =~= others);
    assert(path.skip(0) =~= path);
    assert forall|i: int| 0 <= i < names.len() implies !(#[trigger] names[i]).contains('.') by {
        assert(!siblings[path.len() - 1 - i][path[path.len() - 1 - i] as int].name.contains('.'));
    }
    field_found_by_its_name(trees, path, name);
    lemma_name_alone(trees, columns, name);
}

/// On every level of a path through struct types, each position leads to the tree of the
/// field there.
proof fn lemma_schema_level(
    trees: Seq<Arc<FieldNode>>,
    fields: Seq<FieldModel>,
    path: Seq<usize>,
    siblings: Seq<Seq<FieldModel>>,
    level: int,
    position: usize,
)
    requires
        trees_mirror(trees, fields),
        0 <= level < path.len(),
        siblings.len() == path.len(),
        siblings.last() == fields,
        forall|k: int| 0 <= k < path.len() ==> path[k] < (#[trigger] siblings[k]).len(),
        forall|k: int, above: int|
            #![trigger siblings[k], siblings[above]]
            0 <= k < above == k + 1 < path.len() ==> siblings[above][path[above] as int].data_type
                == TypeModel::Struct(siblings[k]),
        position <= path[level],
    ensures
        field_at(trees, path.skip(level).update(0, position)) matches Some(node) && node.name@
            == siblings[level][position as int].name,
{
    let at = path.skip(level).update(0, position);
    let around = siblings.skip(level);
    assert forall|k: int| 0 <= k < at.len() implies at[k] < (#[trigger] around[k]).len() by {
        assert(path[level + k] < siblings[level + k].len());
    }
    assert forall|k: int, above: int|
        #![trigger around[k], around[above]]
        0 <= k < above == k + 1 < at.len() implies around[above][at[above] as int].data_type
        == TypeModel::Struct(around[k]) by {
        assert(siblings[level + k] == around[k]);
        assert(siblings[level + above] == around[above]);
    }
    schema_path_in_tree(trees, fields, at, around);
    tree_says(
        field_at(trees, at)->Some_0,
        siblings[level][position as int],
    );
}

} // verus!
