//! The projector.

use std::sync::Arc;

use arrow_buffer::NullBuffer;
use vstd::prelude::*;
use vstd::slice::slice_subrange;

use crate::calls::{id_lookup_each, name_lookup_each};
use crate::columns::{
    column_at, column_refused, lemma_path_ends, lemma_path_prefix, lemma_projection_error_stays,
    path_in_bounds, paths_in_bounds, projection, projections, projections_in_order, row_visible,
    visible_bits,
};
use crate::contents::{
    batch_accepts, columns_fit, own_bits, BatchModel, ColumnModel, FieldModel, SchemaModel,
};
use crate::error::{Error, ErrorKind, ErrorView, Source};
use crate::fit::{
    columns_for, field_has_column, hit_paths, hit_schema, hits_carry_nulls, hits_have_columns,
    hits_lead, hits_make_batch, hits_typed, hits_well_made, id_hits_lead, name_hits_lead,
    nulls_allowed, well_made_hits_project,
};
use crate::lookup::{
    add_hit, field_at, find_all_by_metadata_id, find_all_by_name, find_by_dotted_name, find_by_id,
    find_by_name, first_named, id_not_found, id_search_sound, id_searches_determined,
    lemma_id_error_stays, lemma_name_error_stays, may_find, may_find_all, name_search_sound,
    outcome_of, Hits, Outcome,
};
use crate::outside::{
    arrow_error_text, batch_columns, batch_model, batch_refusal, batch_schema, column_model,
    column_models, field_models, new_schema, null_mask, nulls_len, row_valid, schema_model, share,
    try_new_batch, write_arrow_error, Batch, Column,
};
use crate::schema::{metadata_id, parquet_field_id, trees_mirror, FieldNode, SchemaTree};
use crate::text::{split_dots, split_path, texts, write_decimal};

verus! {

/// Picks columns out of record batches.
#[derive(Debug, PartialEq, Eq)]
pub struct RecordBatchProjector {
    field_indices: Vec<Vec<usize>>,
    projected_schema: Arc<arrow_schema::Schema>,
}

/// Paths as sequences.
pub open spec fn path_views(paths: Seq<Vec<usize>>) -> Seq<Seq<usize>> {
    paths.map_values(|path: Vec<usize>| path@)
}

/// These paths and Arrow fields are those of the hits, in order.
spec fn collected(
    hits: Seq<(Seq<usize>, Arc<FieldNode>)>,
    paths: Seq<Vec<usize>>,
    fields: Seq<Arc<arrow_schema::Field>>,
) -> bool {
    &&& paths.len() == hits.len()
    &&& fields.len() == hits.len()
    &&& forall|k: int|
        #![trigger paths[k]]
        #![trigger hits[k]]
        0 <= k < hits.len() ==> {
            &&& paths[k]@ == hits[k].0
            &&& paths[k]@.len() > 0
            &&& fields[k] == hits[k].1.arrow
        }
}

/// A projector for these hits, or the error that took their place.
pub open spec fn built_from(result: Result<RecordBatchProjector, Error>, hits: Hits) -> bool {
    match (result, hits) {
        (Ok(projector), Ok(found)) => {
            &&& projector.paths() == hit_paths(found)
            &&& projector.schema() == hit_schema(found)
        },
        (Err(error), Err(view)) => error@ == view,
        _ => false,
    }
}

/// The error for columns that make no record batch, from what Arrow says of them.
pub open spec fn batch_refused(text: Seq<char>) -> ErrorView {
    ErrorView::plain(ErrorKind::DataInvalid, text)
}

/// What a result holds: a column, or an error.
pub open spec fn column_view(result: Result<Column, Error>) -> Result<ColumnModel, ErrorView> {
    match result {
        Ok(column) => Ok(column_model(column)),
        Err(error) => Err(error@),
    }
}

/// What a result holds: columns, or an error.
pub open spec fn columns_view(result: Result<Vec<Column>, Error>) -> Result<
    Seq<ColumnModel>,
    ErrorView,
> {
    match result {
        Ok(columns) => Ok(column_models(columns@)),
        Err(error) => Err(error@),
    }
}

/// How projecting a record batch ends: with the error of a projection along the
/// paths; or, if the projections make a record batch of this schema, with that
/// batch; or else with the error that says what Arrow says of them.
pub open spec fn batch_projected(
    columns: Seq<ColumnModel>,
    paths: Seq<Seq<usize>>,
    schema: SchemaModel,
    result: Result<Batch, Error>,
) -> bool {
    match projections(columns, paths) {
        Ok(projected) => if batch_accepts(schema, projected) {
            result matches Ok(batch) && batch_model(batch) == (BatchModel {
                schema,
                columns: projected,
            })
        } else {
            result matches Err(error) && error@ == batch_refused(batch_refusal(schema, projected))
        },
        Err(view) => result matches Err(error) && error@ == view,
    }
}

impl RecordBatchProjector {
    /// The path to each projected field, from the field upwards.
    pub closed spec fn paths(self) -> Seq<Seq<usize>> {
        path_views(self.field_indices@)
    }

    /// The schema of what is projected.
    pub closed spec fn schema(self) -> SchemaModel {
        schema_model(*self.projected_schema)
    }

    #[verifier::type_invariant]
    spec fn well_formed(self) -> bool {
        &&& forall|k: int|
            #![trigger self.field_indices@[k]]
            0 <= k < self.field_indices@.len() ==> self.field_indices@[k]@.len() > 0
        &&& self.schema().fields.len() == self.field_indices@.len()
    }

    /// A projector for the fields with these ids, in the order of the ids.
    ///
    /// `field_id_fetch_func` tells the id of a field, or that it has none. A field
    /// that is a struct is searched below if `searchable_field_func` says so.
    pub fn new<F1, F2>(
        original_schema: &SchemaTree,
        field_ids: &[i32],
        field_id_fetch_func: F1,
        searchable_field_func: F2,
    ) -> (result: Result<RecordBatchProjector, Error>) where
        F1: Fn(&FieldNode) -> Result<Option<i64>, Error>,
        F2: Fn(&FieldNode) -> bool,

        requires
            forall|field: &FieldNode| #[trigger] call_requires(field_id_fetch_func, (field,)),
            forall|field: &FieldNode| #[trigger] call_requires(searchable_field_func, (field,)),
        ensures
            exists|hits: Hits|
                #![trigger built_from(result, hits)]
                may_find_all(
                    original_schema.fields@,
                    field_ids@,
                    field_id_fetch_func,
                    searchable_field_func,
                    hits,
                ) && built_from(result, hits),
    {
        let mut field_indices: Vec<Vec<usize>> = Vec::new();
        let mut fields: Vec<Arc<arrow_schema::Field>> = Vec::new();
        let ghost mut found: Seq<(Seq<usize>, Arc<FieldNode>)> = Seq::empty();
        assert(field_ids@.take(0) =~= Seq::empty());
        let mut i: usize = 0;
        while i < field_ids.len()
            invariant
                i <= field_ids@.len(),
                forall|field: &FieldNode| #[trigger] call_requires(field_id_fetch_func, (field,)),
                forall|field: &FieldNode| #[trigger]
                    call_requires(searchable_field_func, (field,)),
                may_find_all(
                    original_schema.fields@,
                    field_ids@.take(i as int),
                    field_id_fetch_func,
                    searchable_field_func,
                    Hits::Ok(found),
                ),
                collected(found, field_indices@, fields@),
            decreases field_ids@.len() - i,
        {
            let id = field_ids[i];
            let mut field_index: Vec<usize> = Vec::new();
            let result = Self::fetch_field_index(
                &original_schema.fields,
                &mut field_index,
                id as i64,
                &field_id_fetch_func,
                &searchable_field_func,
            );
            let ghost outcome = outcome_of(result, field_index@);
            let ghost hits = add_hit(Hits::Ok(found), outcome, id_not_found(id));
            proof {
                assert(field_index@.skip(0) =~= field_index@);
                assert(field_ids@.take(i + 1).drop_last() =~= field_ids@.take(i as int));
                assert(field_ids@.take(i + 1).last() == id);
                assert(may_find_all(
                    original_schema.fields@,
                    field_ids@.take(i + 1),
                    field_id_fetch_func,
                    searchable_field_func,
                    hits,
                ));
                if let Err(view) = hits {
                    lemma_id_error_stays(
                        original_schema.fields@,
                        field_ids@,
                        i + 1,
                        field_id_fetch_func,
                        searchable_field_func,
                        view,
                    );
                }
            }
            let field = match result {
                Ok(Some(field)) => field,
                Ok(None) => {
                    let text = write_decimal(id);
                    let failed = Err(
                        Error::new(ErrorKind::Unexpected, "Field not found").with_context(
                            "field_id",
                            text.as_str(),
                        ),
                    );
                    assert(built_from(failed, hits));
                    return failed;
                },
                Err(error) => {
                    let failed = Err(error);
                    assert(built_from(failed, hits));
                    return failed;
                },
            };
            proof {
                assert(original_schema.fields.len() == original_schema.fields@.len());
                id_search_sound(
                    original_schema.fields@,
                    0,
                    id as i64,
                    field_id_fetch_func,
                    searchable_field_func,
                    field_index@,
                    field,
                );
                found = found.push((field_index@, field));
            }
            fields.push(share(&field.arrow));
            field_indices.push(field_index);
            i = i + 1;
        }
        assert(field_ids@.take(i as int) =~= field_ids@);
        let result = Ok(Self::assemble(field_indices, fields));
        proof {
            assert(hit_paths(found) =~= path_views(field_indices@));
            assert(hit_schema(found).fields =~= field_models(fields@));
            assert(built_from(result, Hits::Ok(found)));
        }
        result
    }

    /// A projector for the fields with these names, in the order of the names.
    ///
    /// Each name is that of a top-level field, or a dot-separated path through
    /// nested struct fields.
    pub fn new_by_names(original_schema: &SchemaTree, field_names: &[String]) -> (result: Result<
        RecordBatchProjector,
        Error,
    >)
        ensures
            built_from(
                result,
                find_all_by_name(original_schema.fields@, texts(field_names@)),
            ),
    {
        let mut field_indices: Vec<Vec<usize>> = Vec::new();
        let mut fields: Vec<Arc<arrow_schema::Field>> = Vec::new();
        let ghost mut found: Seq<(Seq<usize>, Arc<FieldNode>)> = Seq::empty();
        let ghost names = texts(field_names@);
        assert(names.take(0) =~= Seq::empty());
        let mut i: usize = 0;
        while i < field_names.len()
            invariant
                i <= field_names@.len(),
                names == texts(field_names@),
                find_all_by_name(original_schema.fields@, names.take(i as int)) == Hits::Ok(found),
                collected(found, field_indices@, fields@),
            decreases field_names@.len() - i,
        {
            let name = &field_names[i];
            let mut field_index: Vec<usize> = Vec::new();
            let result = Self::fetch_field_index_by_name(
                &original_schema.fields,
                &mut field_index,
                name.as_str(),
            );
            let ghost hits = find_all_by_name(original_schema.fields@, names.take(i + 1));
            proof {
                assert(field_index@.skip(0) =~= field_index@);
                assert(names.take(i + 1).drop_last() =~= names.take(i as int));
                assert(names.take(i + 1).last() == name@);
                if hits is Err {
                    lemma_name_error_stays(original_schema.fields@, names, i + 1);
                }
            }
            let field = match result {
                Ok(Some(field)) => field,
                Ok(None) => {
                    return Err(
                        Error::new(ErrorKind::Unexpected, "Field not found").with_context(
                            "field_name",
                            name.as_str(),
                        ),
                    );
                },
                Err(error) => {
                    return Err(error);
                },
            };
            proof {
                assert(original_schema.fields.len() == original_schema.fields@.len());
                name_search_sound(
                    original_schema.fields@,
                    split_dots(name@)[0],
                    split_dots(name@).skip(1),
                    field_index@,
                    field,
                );
                found = found.push((field_index@, field));
            }
            fields.push(share(&field.arrow));
            field_indices.push(field_index);
            i = i + 1;
        }
        assert(names.take(i as int) =~= names);
        let result = Ok(Self::assemble(field_indices, fields));
        proof {
            assert(hit_paths(found) =~= path_views(field_indices@));
            assert(hit_schema(found).fields =~= field_models(fields@));
        }
        result
    }

    fn assemble(
        field_indices: Vec<Vec<usize>>,
        fields: Vec<Arc<arrow_schema::Field>>,
    ) -> (projector: RecordBatchProjector)
        requires
            field_indices@.len() == fields@.len(),
            forall|k: int|
                #![trigger field_indices@[k]]
                0 <= k < field_indices@.len() ==> field_indices@[k]@.len() > 0,
        ensures
            projector.paths() == path_views(field_indices@),
            projector.schema() == (SchemaModel {
                fields: field_models(fields@),
                metadata: Map::empty(),
            }),
    {
        let projected_schema = Arc::new(new_schema(fields));
        RecordBatchProjector { field_indices, projected_schema }
    }

    /// Searches `fields`, and the fields of structs among them, for the first one
    /// whose id is `target_field_id`. If there is one, the path to it is put
    /// behind what `index_vec` holds.
    pub fn fetch_field_index<F1, F2>(
        fields: &Vec<Arc<FieldNode>>,
        index_vec: &mut Vec<usize>,
        target_field_id: i64,
        field_id_fetch_func: &F1,
        searchable_field_func: &F2,
    ) -> (result: Result<Option<Arc<FieldNode>>, Error>) where
        F1: Fn(&FieldNode) -> Result<Option<i64>, Error>,
        F2: Fn(&FieldNode) -> bool,

        requires
            forall|field: &FieldNode| #[trigger] call_requires(*field_id_fetch_func, (field,)),
            forall|field: &FieldNode| #[trigger] call_requires(*searchable_field_func, (field,)),
        ensures
            final(index_vec)@.len() >= old(index_vec)@.len(),
            final(index_vec)@.take(old(index_vec)@.len() as int) == old(index_vec)@,
            !(result matches Ok(Some(_))) ==> final(index_vec)@ == old(index_vec)@,
            may_find(
                fields@,
                0,
                target_field_id,
                *field_id_fetch_func,
                *searchable_field_func,
                outcome_of(result, final(index_vec)@.skip(old(index_vec)@.len() as int)),
            ),
        decreases fields,
    {
        let ghost start = index_vec@;
        let mut pos: usize = 0;
        while pos < fields.len()
            invariant
                pos <= fields.len(),
                index_vec@ == start,
                start == old(index_vec)@,
                forall|field: &FieldNode| #[trigger] call_requires(*field_id_fetch_func, (field,)),
                forall|field: &FieldNode| #[trigger]
                    call_requires(*searchable_field_func, (field,)),
                forall|outcome: Outcome| #[trigger]
                    may_find(
                        fields@,
                        pos as int,
                        target_field_id,
                        *field_id_fetch_func,
                        *searchable_field_func,
                        outcome,
                    ) ==> may_find(
                        fields@,
                        0,
                        target_field_id,
                        *field_id_fetch_func,
                        *searchable_field_func,
                        outcome,
                    ),
            decreases fields.len() - pos,
        {
            let field = &fields[pos];
            let id = match field_id_fetch_func(field) {
                Ok(id) => id,
                Err(error) => {
                    assert(may_find(
                        fields@,
                        pos as int,
                        target_field_id,
                        *field_id_fetch_func,
                        *searchable_field_func,
                        Outcome::Failed(error@),
                    ));
                    return Err(error);
                },
            };
            let matched = match id {
                Some(id) => id == target_field_id,
                None => false,
            };
            if matched {
                index_vec.push(pos);
                proof {
                    assert(index_vec@.skip(start.len() as int) =~= seq![pos]);
                    assert(may_find(
                        fields@,
                        pos as int,
                        target_field_id,
                        *field_id_fetch_func,
                        *searchable_field_func,
                        Outcome::Found { path: seq![pos], field: *field },
                    ));
                }
                return Ok(Some(share(field)));
            }
            if let Some(inner) = &field.children {
                if searchable_field_func(field) {
                    let result = Self::fetch_field_index(
                        inner,
                        index_vec,
                        target_field_id,
                        field_id_fetch_func,
                        searchable_field_func,
                    );
                    let ghost below = outcome_of(result, index_vec@.skip(start.len() as int));
                    match result {
                        Err(error) => {
                            assert(may_find(
                                fields@,
                                pos as int,
                                target_field_id,
                                *field_id_fetch_func,
                                *searchable_field_func,
                                below.below(pos),
                            ));
                            return Err(error);
                        },
                        Ok(Some(found)) => {
                            index_vec.push(pos);
                            proof {
                                assert(may_find(
                                    fields@,
                                    pos as int,
                                    target_field_id,
                                    *field_id_fetch_func,
                                    *searchable_field_func,
                                    below.below(pos),
                                ));
                                assert(outcome_of(
                                    Ok(Some(found)),
                                    index_vec@.skip(start.len() as int),
                                ) =~= below.below(pos));
                            }
                            return Ok(Some(found));
                        },
                        Ok(None) => {},
                    }
                }
            }
            assert forall|outcome: Outcome| #[trigger]
                may_find(
                    fields@,
                    pos + 1,
                    target_field_id,
                    *field_id_fetch_func,
                    *searchable_field_func,
                    outcome,
                ) implies may_find(
                fields@,
                0,
                target_field_id,
                *field_id_fetch_func,
                *searchable_field_func,
                outcome,
            ) by {
                assert(Outcome::Missing.below(pos) is Missing);
                assert(may_find(
                    fields@,
                    pos as int,
                    target_field_id,
                    *field_id_fetch_func,
                    *searchable_field_func,
                    outcome,
                ));
            }
            pos = pos + 1;
        }
        assert(may_find(
            fields@,
            pos as int,
            target_field_id,
            *field_id_fetch_func,
            *searchable_field_func,
            Outcome::Missing,
        ));
        assert(index_vec@.skip(start.len() as int) =~= Seq::empty());
        Ok(None)
    }

    /// Searches `fields` for a dot-separated name. If there is such a field, the
    /// path to it is put behind what `index_vec` holds.
    pub fn fetch_field_index_by_name(
        fields: &Vec<Arc<FieldNode>>,
        index_vec: &mut Vec<usize>,
        target_field_name: &str,
    ) -> (result: Result<Option<Arc<FieldNode>>, Error>)
        ensures
            final(index_vec)@.len() >= old(index_vec)@.len(),
            final(index_vec)@.take(old(index_vec)@.len() as int) == old(index_vec)@,
            !(result matches Ok(Some(_))) ==> final(index_vec)@ == old(index_vec)@,
            outcome_of(result, final(index_vec)@.skip(old(index_vec)@.len() as int))
                == find_by_dotted_name(fields@, target_field_name@),
    {
        let path = split_path(target_field_name);
        let rest = slice_subrange(path.as_slice(), 1, path.len());
        assert(texts(rest@) =~= split_dots(target_field_name@).skip(1));
        assert(texts(path@)[0] == path@[0]@);
        Self::fetch_field_index_by_name_path(fields, index_vec, &path[0], rest)
    }

    /// Searches `fields` for the first field named `target_name` and, from there
    /// on, for the names in `remaining_path`, one level down each.
    pub fn fetch_field_index_by_name_path(
        fields: &Vec<Arc<FieldNode>>,
        index_vec: &mut Vec<usize>,
        target_name: &String,
        remaining_path: &[String],
    ) -> (result: Result<Option<Arc<FieldNode>>, Error>)
        ensures
            final(index_vec)@.len() >= old(index_vec)@.len(),
            final(index_vec)@.take(old(index_vec)@.len() as int) == old(index_vec)@,
            !(result matches Ok(Some(_))) ==> final(index_vec)@ == old(index_vec)@,
            outcome_of(result, final(index_vec)@.skip(old(index_vec)@.len() as int))
                == find_by_name(fields@, target_name@, texts(remaining_path@)),
        decreases remaining_path@.len(),
    {
        let ghost start = index_vec@;
        let mut pos: usize = 0;
        while pos < fields.len()
            invariant
                pos <= fields.len(),
                index_vec@ == start,
                start == old(index_vec)@,
                first_named(fields@, target_name@, 0) == first_named(
                    fields@,
                    target_name@,
                    pos as int,
                ),
            decreases fields.len() - pos,
        {
            let field = &fields[pos];
            if field.name != *target_name {
                pos = pos + 1;
                continue;
            }
            assert(first_named(fields@, target_name@, 0) == Some(pos as int));
            if remaining_path.len() == 0 {
                index_vec.push(pos);
                assert(index_vec@.skip(start.len() as int) =~= seq![pos]);
                return Ok(Some(share(field)));
            }
            let inner = match &field.children {
                Some(inner) => inner,
                None => {
                    return Err(
                        Error::new(
                            ErrorKind::Unexpected,
                            "Cannot resolve nested field by name through non-struct field",
                        ).with_context("field_name", field.name.as_str()),
                    );
                },
            };
            let rest = slice_subrange(remaining_path, 1, remaining_path.len());
            assert(texts(rest@) =~= texts(remaining_path@).skip(1));
            let result = Self::fetch_field_index_by_name_path(
                inner,
                index_vec,
                &remaining_path[0],
                rest,
            );
            let ghost below = outcome_of(result, index_vec@.skip(start.len() as int));
            assert(find_by_name(fields@, target_name@, texts(remaining_path@)) == below.below(pos));
            match result {
                Err(error) => {
                    return Err(error);
                },
                Ok(Some(found)) => {
                    index_vec.push(pos);
                    assert(outcome_of(Ok(Some(found)), index_vec@.skip(start.len() as int))
                        =~= below.below(pos));
                    return Ok(Some(found));
                },
                Ok(None) => {
                    return Ok(None);
                },
            }
        }
        assert(index_vec@.skip(start.len() as int) =~= Seq::empty());
        Ok(None)
    }

    /// The column that a path leads to, null in every row in which any column on
    /// the way is null.
    pub fn get_column_by_field_index(batch: &[Column], field_index: &[usize]) -> (result: Result<
        Column,
        Error,
    >)
        requires
            path_in_bounds(column_models(batch@), field_index@),
        ensures
            column_view(result) == projection(column_models(batch@), field_index@),
    {
        let ghost columns = column_models(batch@);
        let ghost path = field_index@;
        let mut level: usize = field_index.len() - 1;
        proof {
            lemma_path_prefix(columns, path, level as int);
            assert(path.skip(level as int) =~= seq![path[level as int]]);
        }
        let mut array = batch[field_index[level]].share();
        let mut null_buffer = array.logical_nulls();
        proof {
            lemma_mask_rows(null_buffer, column_model(array));
        }
        while level > 0
            invariant
                level < field_index@.len(),
                path == field_index@,
                columns == column_models(batch@),
                path_in_bounds(columns, path),
                column_at(columns, path.skip(level as int)) == Some(column_model(array)),
                nulls_len(null_buffer, column_model(array).rows.len()),
                forall|row: int|
                    #![trigger row_valid(null_buffer, row)]
                    0 <= row < column_model(array).rows.len() ==> row_valid(null_buffer, row)
                        == row_visible(columns, path.skip(level as int), row),
            decreases level,
        {
            let ghost upper = path.skip(level as int);
            let ghost lower = path.skip(level - 1);
            proof {
                lemma_path_prefix(columns, path, level - 1);
                assert(lower.drop_first() =~= upper);
                assert(lower[0] == path[level - 1]);
            }
            level = level - 1;
            let child = match array.struct_column(field_index[level]) {
                Some(child) => child,
                None => {
                    return Err(
                        Error::new(ErrorKind::Unexpected, "Cannot convert Array to StructArray"),
                    );
                },
            };
            let child_nulls = child.logical_nulls();
            let both = NullBuffer::union(null_buffer.as_ref(), child_nulls.as_ref());
            proof {
                lemma_mask_rows(child_nulls, column_model(child));
                assert(nulls_len(both, column_model(child).rows.len()));
                assert forall|row: int|
                    #![trigger row_valid(both, row)]
                    0 <= row < column_model(child).rows.len() implies row_valid(both, row)
                    == row_visible(columns, lower, row) by {
                    assert(row_valid(both, row) == (row_valid(null_buffer, row) && row_valid(
                        child_nulls,
                        row,
                    )));
                }
            }
            null_buffer = both;
            array = child;
        }
        assert(path.skip(0) =~= path);
        proof {
            let bits = null_mask(null_buffer, column_model(array).rows.len());
            assert forall|row: int| #![trigger bits[row]] 0 <= row < bits.len() implies bits[row]
                == row_visible(columns, path, row) by {
                assert(row_valid(null_buffer, row) == row_visible(columns, path, row));
            }
            assert(bits =~= visible_bits(columns, path));
        }
        let built = array.with_nulls(null_buffer);
        Self::column_built(built)
    }

    /// What Arrow made of a column and its new null buffer: the column, or the
    /// error for a column that it refuses.
    pub fn column_built(built: Result<Column, arrow_schema::ArrowError>) -> (result: Result<
        Column,
        Error,
    >)
        ensures
            match built {
                Ok(column) => result == Ok::<Column, Error>(column),
                Err(arrow) => result matches Err(error) && error@ == column_refused()
                    && error.source == Some(Source::Arrow(arrow)) && error.kind
                    == ErrorKind::Unexpected && error.message@ == "Arrow Schema Error"@
                    && error.context@.len() == 0,
            },
    {
        match built {
            Ok(column) => Ok(column),
            Err(arrow) => Err(
                Error::new(ErrorKind::Unexpected, "Arrow Schema Error").with_source(
                    Source::Arrow(arrow),
                ),
            ),
        }
    }

    /// Follows a path as far as it leads: to a column, or to one that is no
    /// struct column; nothing if a position is out of bounds.
    fn walk(batch: &[Column], field_index: &[usize]) -> (reached: Option<Option<Column>>)
        ensures
            match reached {
                Some(end) => {
                    &&& path_in_bounds(column_models(batch@), field_index@)
                    &&& match end {
                        Some(column) => column_at(column_models(batch@), field_index@) == Some(
                            column_model(column),
                        ),
                        None => column_at(column_models(batch@), field_index@) is None,
                    }
                },
                None => !path_in_bounds(column_models(batch@), field_index@),
            },
    {
        let ghost columns = column_models(batch@);
        let ghost path = field_index@;
        if field_index.len() == 0 {
            return None;
        }
        let mut level: usize = field_index.len() - 1;
        proof {
            assert(path.skip(level as int) =~= seq![path[level as int]]);
            if path_in_bounds(columns, path) {
                lemma_path_prefix(columns, path, level as int);
            }
        }
        if field_index[level] >= batch.len() {
            return None;
        }
        let mut array = batch[field_index[level]].share();
        while level > 0
            invariant
                level < field_index@.len(),
                path == field_index@,
                columns == column_models(batch@),
                path_in_bounds(columns, path.skip(level as int)),
                column_at(columns, path.skip(level as int)) == Some(column_model(array)),
            decreases level,
        {
            let ghost lower = path.skip(level - 1);
            proof {
                assert(lower.drop_first() =~= path.skip(level as int));
                assert(lower[0] == path[level - 1]);
                if path_in_bounds(columns, path) {
                    lemma_path_prefix(columns, path, level - 1);
                }
            }
            level = level - 1;
            match array.struct_width() {
                Some(width) => {
                    if field_index[level] >= width {
                        return None;
                    }
                },
                None => {
                    proof {
                        lemma_path_ends(columns, path, level as int);
                    }
                    return Some(None);
                },
            }
            match array.struct_column(field_index[level]) {
                Some(child) => {
                    array = child;
                },
                None => {
                    return Some(None);
                },
            }
        }
        assert(path.skip(0) =~= path);
        Some(Some(array))
    }

    /// No position on a path is behind the end of the columns it counts in.
    pub fn path_fits(batch: &[Column], field_index: &[usize]) -> (fits: bool)
        ensures
            fits == path_in_bounds(column_models(batch@), field_index@),
    {
        Self::walk(batch, field_index).is_some()
    }

    /// The schema of what is projected.
    pub fn projected_schema_ref(&self) -> (schema: &Arc<arrow_schema::Schema>)
        ensures
            schema_model(**schema) == self.schema(),
    {
        &self.projected_schema
    }

    /// The path to each projected field, from the field upwards.
    pub fn field_indices(&self) -> (paths: &Vec<Vec<usize>>)
        ensures
            path_views(paths@) == self.paths(),
            paths@.len() == self.paths().len(),
            forall|k: int|
                #![trigger paths@[k]]
                0 <= k < paths@.len() ==> paths@[k]@ == self.paths()[k],
    {
        &self.field_indices
    }

    /// Projects columns: one for each path, in order.
    pub fn project_column(&self, batch: &[Column]) -> (result: Result<Vec<Column>, Error>)
        requires
            paths_in_bounds(column_models(batch@), self.paths()),
        ensures
            columns_view(result) == projections(column_models(batch@), self.paths()),
    {
        let ghost columns = column_models(batch@);
        let mut projected: Vec<Column> = Vec::new();
        proof {
            assert(self.paths().take(0) =~= Seq::empty());
            assert(column_models(projected@) =~= Seq::empty());
        }
        let mut i: usize = 0;
        while i < self.field_indices.len()
            invariant
                i <= self.field_indices@.len(),
                columns == column_models(batch@),
                paths_in_bounds(columns, self.paths()),
                projections(columns, self.paths().take(i as int)) == Ok::<
                    Seq<ColumnModel>,
                    ErrorView,
                >(column_models(projected@)),
            decreases self.field_indices@.len() - i,
        {
            let field_index = &self.field_indices[i];
            let ghost before = column_models(projected@);
            proof {
                assert(self.paths()[i as int] == field_index@);
                assert(self.paths().take(i + 1).drop_last() =~= self.paths().take(i as int));
                assert(self.paths().take(i + 1).last() == field_index@);
            }
            match Self::get_column_by_field_index(batch, field_index.as_slice()) {
                Ok(column) => {
                    projected.push(column);
                    assert(column_models(projected@) =~= before.push(column_model(column)));
                },
                Err(error) => {
                    proof {
                        lemma_projection_error_stays(columns, self.paths(), i + 1);
                    }
                    return Err(error);
                },
            }
            i = i + 1;
        }
        assert(self.paths().take(i as int) =~= self.paths());
        Ok(projected)
    }

    /// Projects a record batch.
    pub fn project_batch(&self, batch: Batch) -> (result: Result<Batch, Error>)
        requires
            paths_in_bounds(batch_model(batch).columns, self.paths()),
        ensures
            columns_fit(batch_model(batch).schema.fields, batch_model(batch).columns),
            batch_projected(
                batch_model(batch).columns,
                self.paths(),
                self.schema(),
                result,
            ),
    {
        let columns = batch_columns(&batch);
        let projected = match self.project_column(columns.as_slice()) {
            Ok(projected) => projected,
            Err(error) => {
                return Err(error);
            },
        };
        Self::batch_built(try_new_batch(share(&self.projected_schema), projected))
    }

    /// What Arrow made of a schema and columns: the record batch, or the error
    /// for columns that make none, which says what Arrow says.
    pub fn batch_built(built: Result<Batch, arrow_schema::ArrowError>) -> (result: Result<
        Batch,
        Error,
    >)
        ensures
            match built {
                Ok(batch) => result == Ok::<Batch, Error>(batch),
                Err(arrow) => result matches Err(error) && error@ == batch_refused(
                    arrow_error_text(arrow),
                ) && error.kind == ErrorKind::DataInvalid && error.message@ == arrow_error_text(
                    arrow,
                ) && error.context@.len() == 0 && error.source is None,
            },
    {
        match built {
            Ok(batch) => Ok(batch),
            Err(arrow) => Err(
                Error::new(ErrorKind::DataInvalid, write_arrow_error(&arrow).as_str()),
            ),
        }
    }

    /// Whether `project_column` can take these columns: no position on a path is
    /// out of bounds, up to the first path that has no projection.
    pub fn paths_fit(&self, batch: &[Column]) -> (fit: bool)
        ensures
            fit == paths_in_bounds(column_models(batch@), self.paths()),
    {
        let ghost columns = column_models(batch@);
        let ghost paths = self.paths();
        assert(paths.take(0) =~= Seq::empty());
        let mut i: usize = 0;
        while i < self.field_indices.len()
            invariant
                i <= self.field_indices@.len(),
                columns == column_models(batch@),
                paths == self.paths(),
                projections(columns, paths.take(i as int)) is Ok,
                forall|k: int|
                    #![trigger paths[k]]
                    0 <= k < i ==> path_in_bounds(columns, paths[k]),
            decreases self.field_indices@.len() - i,
        {
            let field_index = &self.field_indices[i];
            proof {
                assert(paths[i as int] == field_index@);
                assert(paths.take(i + 1).drop_last() =~= paths.take(i as int));
                assert(paths.take(i + 1).last() == field_index@);
            }
            if !Self::path_fits(batch, field_index.as_slice()) {
                return false;
            }
            match Self::get_column_by_field_index(batch, field_index.as_slice()) {
                Ok(_) => {},
                Err(_) => {
                    proof {
                        assert forall|k: int|
                            #![trigger paths[k]]
                            0 <= k < paths.len() && projections(
                                columns,
                                paths.take(k),
                            ) is Ok implies path_in_bounds(columns, paths[k]) by {
                            if k > i {
                                assert(paths.take(k).take(i + 1) =~= paths.take(i + 1));
                                lemma_projection_error_stays(columns, paths.take(k), i + 1);
                            }
                        }
                    }
                    return true;
                },
            }
            i = i + 1;
        }
        true
    }

    /// Projects columns, if no path is out of bounds for them.
    pub fn try_project_column(&self, batch: &[Column]) -> (result: Option<
        Result<Vec<Column>, Error>,
    >)
        ensures
            match result {
                Some(result) => {
                    &&& paths_in_bounds(column_models(batch@), self.paths())
                    &&& columns_view(result) == projections(column_models(batch@), self.paths())
                },
                None => !paths_in_bounds(column_models(batch@), self.paths()),
            },
    {
        if self.paths_fit(batch) {
            Some(self.project_column(batch))
        } else {
            None
        }
    }

    /// Projects a record batch, if no path is out of bounds for it.
    pub fn try_project_batch(&self, batch: Batch) -> (result: Option<Result<Batch, Error>>)
        ensures
            columns_fit(batch_model(batch).schema.fields, batch_model(batch).columns),
            match result {
                Some(result) => {
                    &&& paths_in_bounds(batch_model(batch).columns, self.paths())
                    &&& batch_projected(
                        batch_model(batch).columns,
                        self.paths(),
                        self.schema(),
                        result,
                    )
                },
                None => !paths_in_bounds(batch_model(batch).columns, self.paths()),
            },
    {
        if self.paths_fit(batch_columns(&batch).as_slice()) {
            Some(self.project_batch(batch))
        } else {
            None
        }
    }

    /// A projector for the fields with these ids in their metadata.
    fn new_by_field_id(original_schema: &SchemaTree, field_ids: &[i32]) -> (result: Result<
        RecordBatchProjector,
        Error,
    >)
        ensures
            built_from(result, find_all_by_metadata_id(original_schema.fields@, field_ids@)),
    {
        let searchable = |field: &FieldNode| -> (enter: bool)
            ensures
                enter,
            { true };
        let ghost seen = searchable;
        let result = Self::new(original_schema, field_ids, parquet_field_id, searchable);
        proof {
            let hits = choose|hits: Hits|
                #![trigger built_from(result, hits)]
                may_find_all(
                    original_schema.fields@,
                    field_ids@,
                    parquet_field_id,
                    seen,
                    hits,
                ) && built_from(result, hits);
            id_searches_determined(
                original_schema.fields@,
                field_ids@,
                parquet_field_id,
                seen,
                |field: FieldNode| metadata_id(field),
                |field: FieldNode| true,
                hits,
            );
        }
        result
    }

    /// A projector for the fields with these ids of a table's Iceberg schema.
    ///
    /// `arrow_schema_with_ids` is what converting the Iceberg schema to an Arrow
    /// schema came to: the Arrow schema, with each field's id in its metadata, or
    /// an error, which is handed on.
    pub fn from_iceberg_schema(
        arrow_schema_with_ids: Result<Arc<arrow_schema::Schema>, Error>,
        target_field_ids: &[i32],
    ) -> (result: Result<RecordBatchProjector, Error>)
        ensures
            match arrow_schema_with_ids {
                Ok(schema) => exists|trees: Seq<Arc<FieldNode>>|
                    {
                        &&& #[trigger] trees_mirror(trees, schema_model(*schema).fields)
                        &&& trees.len() <= usize::MAX
                        &&& built_from(
                            result,
                            find_all_by_metadata_id(trees, target_field_ids@),
                        )
                    },
                Err(error) => result == Err::<RecordBatchProjector, Error>(error),
            },
    {
        match arrow_schema_with_ids {
            Ok(schema) => {
                let tree = SchemaTree::from_arrow(&schema);
                assert(tree.fields.len() == tree.fields@.len());
                Self::new_by_field_id(&tree, target_field_ids)
            },
            Err(error) => Err(error),
        }
    }

    /// Projects a batch's columns by looking up each field id in the metadata of
    /// the batch's own schema. It is an error if an id is missing there.
    pub fn project_columns_by_field_id(batch: &Batch, target_field_ids: &[i32]) -> (result: Result<
        Vec<Column>,
        Error,
    >)
        ensures
            columns_fit(batch_model(*batch).schema.fields, batch_model(*batch).columns),
            exists|trees: Seq<Arc<FieldNode>>|
                {
                    &&& #[trigger] trees_mirror(trees, batch_model(*batch).schema.fields)
                    &&& trees.len() <= usize::MAX
                    &&& columns_view(result) == columns_for(
                        batch_model(*batch).columns,
                        find_all_by_metadata_id(trees, target_field_ids@),
                    )
                    &&& columns_view(result) matches Ok(projected) ==> {
                        &&& projected.len() == target_field_ids@.len()
                        &&& forall|k: int|
                            #![trigger projected[k]]
                            0 <= k < projected.len() ==> (find_by_id(
                                trees,
                                0,
                                target_field_ids@[k] as i64,
                                |field: FieldNode| metadata_id(field),
                                |field: FieldNode| true,
                            ) matches Outcome::Found { path, .. } && projection(
                                batch_model(*batch).columns,
                                path,
                            ) == Ok::<ColumnModel, ErrorView>(projected[k]))
                    }
                },
    {
        let tree = SchemaTree::from_arrow(&batch_schema(batch));
        let ghost trees = tree.fields@;
        proof {
            assert(tree.fields.len() == trees.len());
            id_hits_lead(
                trees,
                target_field_ids@,
                |field: FieldNode| metadata_id(field),
                |field: FieldNode| true,
            );
            id_lookup_each(trees, batch_model(*batch).columns, target_field_ids@);
        }
        let columns = batch_columns(batch);
        let projector = match Self::new_by_field_id(&tree, target_field_ids) {
            Ok(projector) => projector,
            Err(error) => {
                return Err(error);
            },
        };
        proof {
            hits_have_columns(
                trees,
                batch_model(*batch).schema.fields,
                column_models(columns@),
                find_all_by_metadata_id(trees, target_field_ids@)->Ok_0,
            );
        }
        projector.project_column(columns.as_slice())
    }

    /// Projects a batch's columns by looking up each name in the batch's own
    /// schema. A name may be a dot-separated path through nested struct fields.
    pub fn project_columns_by_name(batch: &Batch, target_field_names: &[String]) -> (result: Result<
        Vec<Column>,
        Error,
    >)
        ensures
            columns_fit(batch_model(*batch).schema.fields, batch_model(*batch).columns),
            exists|trees: Seq<Arc<FieldNode>>|
                {
                    &&& #[trigger] trees_mirror(trees, batch_model(*batch).schema.fields)
                    &&& trees.len() <= usize::MAX
                    &&& columns_view(result) == columns_for(
                        batch_model(*batch).columns,
                        find_all_by_name(trees, texts(target_field_names@)),
                    )
                    &&& columns_view(result) matches Ok(projected) ==> {
                        &&& projected.len() == target_field_names@.len()
                        &&& forall|k: int|
                            #![trigger projected[k]]
                            0 <= k < projected.len() ==> (find_by_dotted_name(
                                trees,
                                target_field_names@[k]@,
                            ) matches Outcome::Found { path, .. } && projection(
                                batch_model(*batch).columns,
                                path,
                            ) == Ok::<ColumnModel, ErrorView>(projected[k]))
                    }
                },
    {
        let tree = SchemaTree::from_arrow(&batch_schema(batch));
        let ghost trees = tree.fields@;
        proof {
            assert(tree.fields.len() == trees.len());
            name_hits_lead(trees, texts(target_field_names@));
            name_lookup_each(trees, batch_model(*batch).columns, texts(target_field_names@));
            assert forall|k: int|
                #![trigger target_field_names@[k]]
                0 <= k < target_field_names@.len() implies texts(target_field_names@)[k]
                == target_field_names@[k]@ by {}
        }
        let columns = batch_columns(batch);
        let projector = match Self::new_by_names(&tree, target_field_names) {
            Ok(projector) => projector,
            Err(error) => {
                return Err(error);
            },
        };
        proof {
            hits_have_columns(
                trees,
                batch_model(*batch).schema.fields,
                column_models(columns@),
                find_all_by_name(trees, texts(target_field_names@))->Ok_0,
            );
        }
        projector.project_column(columns.as_slice())
    }
}

/// A projector built from a schema can be used on every batch of that schema: each
/// of its paths leads to a column, and no position is out of bounds.
pub proof fn projector_fits_batch(
    trees: Seq<Arc<FieldNode>>,
    fields: Seq<FieldModel>,
    columns: Seq<ColumnModel>,
    hits: Seq<(Seq<usize>, Arc<FieldNode>)>,
    projector: RecordBatchProjector,
)
    requires
        trees_mirror(trees, fields),
        columns_fit(fields, columns),
        hits_lead(trees, hits),
        built_from(Ok::<RecordBatchProjector, Error>(projector), Hits::Ok(hits)),
    ensures
        paths_in_bounds(columns, projector.paths()),
        forall|k: int|
            #![trigger projector.paths()[k]]
            0 <= k < projector.paths().len() ==> column_at(columns, projector.paths()[k]) is Some,
{
    hits_have_columns(trees, fields, columns, hits);
}

/// Projecting a record batch fails only if nothing is projected or a projected
/// column has a null that its field does not allow, given a projector built from
/// the batch's schema, and columns at its paths that are well made, of exactly the
/// types of their fields, and of types that can carry a null buffer.
pub proof fn batch_fails_only_for_nulls(
    trees: Seq<Arc<FieldNode>>,
    fields: Seq<FieldModel>,
    columns: Seq<ColumnModel>,
    hits: Seq<(Seq<usize>, Arc<FieldNode>)>,
    projector: RecordBatchProjector,
    result: Result<Batch, Error>,
)
    requires
        trees_mirror(trees, fields),
        columns_fit(fields, columns),
        hits_lead(trees, hits),
        hits_typed(columns, hits),
        hits_well_made(columns, hits),
        hits_carry_nulls(hits),
        built_from(Ok::<RecordBatchProjector, Error>(projector), Hits::Ok(hits)),
        batch_projected(columns, projector.paths(), projector.schema(), result),
    ensures
        projections(columns, projector.paths()) is Ok,
        result is Err <==> hits.len() == 0 || !nulls_allowed(
            projector.schema().fields,
            projections(columns, projector.paths())->Ok_0,
        ),
        result matches Err(error) ==> error@.kind == ErrorKind::DataInvalid,
{
    well_made_hits_project(trees, fields, columns, hits);
    hits_make_batch(
        trees,
        fields,
        columns,
        hits,
        projections(columns, hit_paths(hits))->Ok_0,
    );
}

/// A projected record batch has the projected schema, one column for each path and
/// as many rows as the batch it was taken from; and its columns are those that
/// projecting the columns alone gives.
pub proof fn batch_holds_projections(
    trees: Seq<Arc<FieldNode>>,
    fields: Seq<FieldModel>,
    columns: Seq<ColumnModel>,
    hits: Seq<(Seq<usize>, Arc<FieldNode>)>,
    projector: RecordBatchProjector,
    batch: Batch,
    result: Result<Vec<Column>, Error>,
)
    requires
        trees_mirror(trees, fields),
        columns_fit(fields, columns),
        hits_lead(trees, hits),
        built_from(Ok::<RecordBatchProjector, Error>(projector), Hits::Ok(hits)),
        batch_projected(
            columns,
            projector.paths(),
            projector.schema(),
            Ok::<Batch, Error>(batch),
        ),
        columns_view(result) == projections(columns, projector.paths()),
    ensures
        batch_model(batch).schema == projector.schema(),
        batch_model(batch).columns.len() == hits.len(),
        result matches Ok(projected) && column_models(projected@) == batch_model(batch).columns,
        forall|k: int|
            #![trigger batch_model(batch).columns[k]]
            0 <= k < hits.len() ==> batch_model(batch).columns[k].rows.len()
                == columns[0].rows.len(),
{
    let paths = projector.paths();
    projections_in_order(columns, paths);
    assert forall|k: int|
        #![trigger batch_model(batch).columns[k]]
        0 <= k < hits.len() implies batch_model(batch).columns[k].rows.len()
        == columns[0].rows.len() by {
        assert(paths[k] == hits[k].0);
        assert(field_at(trees, hits[k].0) == Some(hits[k].1));
        field_has_column(trees, fields, columns, hits[k].0);
    }
}

/// The rows that are valid under a column's own null buffer hold a value.
proof fn lemma_mask_rows(nulls: Option<NullBuffer>, column: ColumnModel)
    requires
        null_mask(nulls, column.rows.len()) == own_bits(column),
    ensures
        forall|row: int|
            #![trigger row_valid(nulls, row)]
            0 <= row < column.rows.len() ==> row_valid(nulls, row) == (column.rows[row] is Some),
{
    assert forall|row: int|
        #![trigger row_valid(nulls, row)]
        0 <= row < column.rows.len() implies row_valid(nulls, row) == (
    column.rows[row] is Some) by {
        assert(null_mask(nulls, column.rows.len())[row] == row_valid(nulls, row));
        assert(own_bits(column)[row] == (column.rows[row] is Some));
    }
}

impl Clone for RecordBatchProjector {
    fn clone(&self) -> (other: RecordBatchProjector)
        ensures
            other.paths() == self.paths(),
            other.schema() == self.schema(),
    {
        proof {
            use_type_invariant(self);
        }
        let mut field_indices: Vec<Vec<usize>> = Vec::new();
        let mut i: usize = 0;
        while i < self.field_indices.len()
            invariant
                i <= self.field_indices@.len(),
                field_indices@.len() == i,
                forall|k: int|
                    #![trigger field_indices@[k]]
                    0 <= k < i ==> field_indices@[k]@ == self.field_indices@[k]@,
            decreases self.field_indices@.len() - i,
        {
            let path = self.field_indices[i].clone();
            assert(path@ =~= self.field_indices@[i as int]@);
            field_indices.push(path);
            i = i + 1;
        }
        assert(path_views(field_indices@) =~= path_views(self.field_indices@));
        RecordBatchProjector { field_indices, projected_schema: share(&self.projected_schema) }
    }
}

} // verus!
