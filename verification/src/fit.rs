//! Fields found in the schema of a batch, and the columns of that batch.

use std::sync::Arc;

use vstd::prelude::*;

use crate::columns::{
    column_at, path_in_bounds, paths_in_bounds, projection, projections, projections_in_order,
    row_visible, visible_bits,
};
use crate::contents::{
    batch_accepts, column_consistent, columns_fit, same_shape, well_made, ColumnModel, FieldModel,
    SchemaModel, TypeModel,
};
use crate::error::{Error, ErrorView};
use crate::lookup::{
    add_hit, children_of, decides, field_at, find_all_by_id, find_all_by_metadata_id,
    find_all_by_name, find_by_dotted_name, find_by_id, find_by_metadata_id, find_by_name,
    first_decision, first_named, id_hits_in_order, id_not_found, id_search_first, id_search_sound,
    may_find, may_find_all, name_not_found, name_search_sound, precedes, reachable, Hits, Outcome,
};
use crate::schema::{metadata_id, model_of, trees_mirror, FieldNode};
use crate::text::split_dots;

verus! {

/// Every hit's path leads to its field.
pub open spec fn hits_lead(
    fields: Seq<Arc<FieldNode>>,
    hits: Seq<(Seq<usize>, Arc<FieldNode>)>,
) -> bool {
    forall|k: int|
        #![trigger hits[k]]
        0 <= k < hits.len() ==> field_at(fields, hits[k].0) == Some(hits[k].1)
}

/// The paths of hits, in order.
pub open spec fn hit_paths(hits: Seq<(Seq<usize>, Arc<FieldNode>)>) -> Seq<Seq<usize>> {
    hits.map_values(|hit: (Seq<usize>, Arc<FieldNode>)| hit.0)
}

/// The schema that the fields of hits make, in order.
pub open spec fn hit_schema(hits: Seq<(Seq<usize>, Arc<FieldNode>)>) -> SchemaModel {
    SchemaModel {
        fields: hits.map_values(|hit: (Seq<usize>, Arc<FieldNode>)| model_of(hit.1)),
        metadata: Map::empty(),
    }
}

/// Searches by name give one hit for each name, in order, and each hit's path
/// leads to its field.
pub proof fn name_hits_lead(fields: Seq<Arc<FieldNode>>, names: Seq<Seq<char>>)
    requires
        fields.len() <= usize::MAX,
    ensures
        find_all_by_name(fields, names) matches Ok(hits) ==> hits.len() == names.len() && hits_lead(
            fields,
            hits,
        ),
    decreases names.len(),
{
    if names.len() > 0 {
        name_hits_lead(fields, names.drop_last());
        let pieces = split_dots(names.last());
        if let Outcome::Found { path, field } = find_by_dotted_name(fields, names.last()) {
            name_search_sound(fields, pieces[0], pieces.skip(1), path, field);
        }
    }
}

/// Searches by id give one hit for each id, in order, and each hit's path leads
/// to its field.
pub proof fn id_hits_lead(
    fields: Seq<Arc<FieldNode>>,
    targets: Seq<i32>,
    ids: spec_fn(FieldNode) -> Result<Option<i64>, ErrorView>,
    enters: spec_fn(FieldNode) -> bool,
)
    requires
        fields.len() <= usize::MAX,
    ensures
        find_all_by_id(fields, targets, ids, enters) matches Ok(hits) ==> hits.len()
            == targets.len() && hits_lead(fields, hits),
    decreases targets.len(),
{
    if targets.len() > 0 {
        id_hits_lead(fields, targets.drop_last(), ids, enters);
        id_search_first(fields, targets.last() as i64, ids, enters);
    }
}

/// Searches by id, whatever the fields answer, give one hit for each id, in order,
/// and each hit's path leads to its field.
pub proof fn any_id_hits_lead<F1, F2>(
    fields: Seq<Arc<FieldNode>>,
    targets: Seq<i32>,
    fetch: F1,
    searchable: F2,
    hits: Seq<(Seq<usize>, Arc<FieldNode>)>,
) where F1: Fn(&FieldNode) -> Result<Option<i64>, Error>, F2: Fn(&FieldNode) -> bool
    requires
        fields.len() <= usize::MAX,
        may_find_all(fields, targets, fetch, searchable, Hits::Ok(hits)),
    ensures
        hits.len() == targets.len(),
        hits_lead(fields, hits),
    decreases targets.len(),
{
    if targets.len() > 0 {
        let last = targets.last();
        let (before, outcome) = choose|before: Hits, outcome: Outcome|
            {
                &&& may_find_all(fields, targets.drop_last(), fetch, searchable, before)
                &&& before is Ok ==> may_find(
                    fields,
                    0,
                    last as i64,
                    fetch,
                    searchable,
                    outcome,
                )
                &&& Hits::Ok(hits) == #[trigger] add_hit(before, outcome, id_not_found(last))
            };
        let found = before->Ok_0;
        any_id_hits_lead(fields, targets.drop_last(), fetch, searchable, found);
        id_search_sound(
            fields,
            0,
            last as i64,
            fetch,
            searchable,
            outcome->path,
            outcome->field,
        );
    }
}

/// Every field that a path leads to in trees of fields is a tree of its own Arrow
/// field.
pub proof fn field_mirrors_itself(
    trees: Seq<Arc<FieldNode>>,
    fields: Seq<FieldModel>,
    path: Seq<usize>,
)
    requires
        trees_mirror(trees, fields),
        field_at(trees, path) is Some,
    ensures
        field_at(trees, path)->Some_0.mirrors(model_of(field_at(trees, path)->Some_0)),
    decreases path.len(),
{
    let position = path[0] as int;
    if path.len() == 1 {
        assert(trees[position].mirrors(fields[position]));
    } else {
        let upper = path.drop_first();
        field_mirrors_itself(trees, fields, upper);
        let parent = field_at(trees, upper)->Some_0;
        let children = children_of(parent)->Some_0;
        assert(children[position].mirrors(model_of(parent).data_type->Struct_0[position]));
    }
}

/// What nests alike nests alike through a type in between.
proof fn lemma_shape_through(left: TypeModel, middle: TypeModel, right: TypeModel)
    requires
        same_shape(left, middle),
        same_shape(middle, right),
    ensures
        same_shape(left, right),
    decreases left,
{
    if left is Struct {
        let fields = left->Struct_0;
        let between = middle->Struct_0;
        let others = right->Struct_0;
        assert forall|i: int| #![trigger fields[i]] 0 <= i < fields.len() implies same_shape(
            fields[i].data_type,
            others[i].data_type,
        ) by {
            assert(decreases_to!(left => left->Struct_0));
            assert(decreases_to!(fields => fields[i]));
            assert(decreases_to!(fields[i] => fields[i].data_type));
            assert(same_shape(fields[i].data_type, between[i].data_type));
            assert(same_shape(between[i].data_type, others[i].data_type));
            lemma_shape_through(
                fields[i].data_type,
                between[i].data_type,
                others[i].data_type,
            );
        }
    }
}

/// A path to a field of a batch's schema leads to a column of the batch, and no
/// position on it is out of bounds. The column nests structs as the field does,
/// and is as long as the batch.
pub proof fn field_has_column(
    trees: Seq<Arc<FieldNode>>,
    fields: Seq<FieldModel>,
    columns: Seq<ColumnModel>,
    path: Seq<usize>,
)
    requires
        trees_mirror(trees, fields),
        columns_fit(fields, columns),
        field_at(trees, path) is Some,
    ensures
        path_in_bounds(columns, path),
        column_at(columns, path) matches Some(column) && same_shape(
            model_of(field_at(trees, path)->Some_0).data_type,
            column.data_type,
        ) && column_consistent(column) && column.rows.len() == columns[0].rows.len(),
    decreases path.len(),
{
    let position = path[0] as int;
    if path.len() == 1 {
        assert(trees[position].mirrors(fields[position]));
        assert(columns[position].rows.len() == columns[0].rows.len());
    } else {
        let upper = path.drop_first();
        field_has_column(trees, fields, columns, upper);
        field_mirrors_itself(trees, fields, upper);
        let parent = field_at(trees, upper)->Some_0;
        let model = model_of(parent);
        let column = column_at(columns, upper)->Some_0;
        let children = children_of(parent)->Some_0;
        assert(children[position].mirrors(model.data_type->Struct_0[position]));
        assert(column.children->Some_0[position].rows.len() == column.rows.len());
        lemma_shape_through(
            model.data_type->Struct_0[position].data_type,
            column.data_type->Struct_0[position].data_type,
            column.children->Some_0[position].data_type,
        );
    }
}

/// Hits in the schema of a batch all lead to columns of that batch.
pub proof fn hits_have_columns(
    trees: Seq<Arc<FieldNode>>,
    fields: Seq<FieldModel>,
    columns: Seq<ColumnModel>,
    hits: Seq<(Seq<usize>, Arc<FieldNode>)>,
)
    requires
        trees_mirror(trees, fields),
        columns_fit(fields, columns),
        hits_lead(trees, hits),
    ensures
        paths_in_bounds(columns, hit_paths(hits)),
        forall|k: int|
            #![trigger hit_paths(hits)[k]]
            0 <= k < hits.len() ==> column_at(columns, hit_paths(hits)[k]) is Some,
{
    assert forall|k: int|
        #![trigger hit_paths(hits)[k]]
        0 <= k < hits.len() implies path_in_bounds(columns, hit_paths(hits)[k]) && column_at(
        columns,
        hit_paths(hits)[k],
    ) is Some by {
        assert(field_at(trees, hits[k].0) == Some(hits[k].1));
        field_has_column(trees, fields, columns, hits[k].0);
    }
}

/// Two searches end alike: at fields that hold the same, under the same path; or
/// both without one; or with the same error.
pub open spec fn outcomes_agree(left: Outcome, right: Outcome) -> bool {
    match (left, right) {
        (
            Outcome::Found { path, field },
            Outcome::Found { path: other_path, field: other_field },
        ) => {
            &&& path == other_path
            &&& model_of(field) == model_of(other_field)
        },
        (Outcome::Missing, Outcome::Missing) => true,
        (Outcome::Failed(error), Outcome::Failed(other)) => error == other,
        _ => false,
    }
}

/// The same paths to fields that hold the same, or the same error.
pub open spec fn hits_agree(left: Hits, right: Hits) -> bool {
    match (left, right) {
        (Ok(hits), Ok(others)) => {
            &&& hit_paths(hits) == hit_paths(others)
            &&& hit_schema(hits) == hit_schema(others)
        },
        (Err(error), Err(other)) => error == other,
        _ => false,
    }
}

proof fn lemma_hits_agree(
    left: Hits,
    right: Hits,
    outcome: Outcome,
    other: Outcome,
    not_found: ErrorView,
)
    requires
        hits_agree(left, right),
        outcomes_agree(outcome, other),
    ensures
        hits_agree(add_hit(left, outcome, not_found), add_hit(right, other, not_found)),
{
    if left is Ok && outcome is Found {
        let hits = left->Ok_0.push((outcome->path, outcome->field));
        let others = right->Ok_0.push((other->path, other->field));
        assert(hit_paths(hits) =~= hit_paths(left->Ok_0).push(outcome->path));
        assert(hit_paths(others) =~= hit_paths(right->Ok_0).push(other->path));
        assert(hit_schema(hits).fields =~= hit_schema(left->Ok_0).fields.push(
            model_of(outcome->field),
        ));
        assert(hit_schema(others).fields =~= hit_schema(right->Ok_0).fields.push(
            model_of(other->field),
        ));
    }
}

proof fn lemma_first_named_agrees(
    trees: Seq<Arc<FieldNode>>,
    others: Seq<Arc<FieldNode>>,
    fields: Seq<FieldModel>,
    name: Seq<char>,
    from: int,
)
    requires
        trees_mirror(trees, fields),
        trees_mirror(others, fields),
        0 <= from,
    ensures
        first_named(trees, name, from) == first_named(others, name, from),
        first_named(trees, name, from) matches Some(position) ==> from <= position < trees.len(),
    decreases trees.len() - from,
{
    if from < trees.len() {
        assert(trees[from].mirrors(fields[from]));
        assert(others[from].mirrors(fields[from]));
        lemma_first_named_agrees(trees, others, fields, name, from + 1);
    }
}

proof fn lemma_name_search_agrees(
    trees: Seq<Arc<FieldNode>>,
    others: Seq<Arc<FieldNode>>,
    fields: Seq<FieldModel>,
    target: Seq<char>,
    rest: Seq<Seq<char>>,
)
    requires
        trees_mirror(trees, fields),
        trees_mirror(others, fields),
    ensures
        outcomes_agree(find_by_name(trees, target, rest), find_by_name(others, target, rest)),
    decreases rest.len(),
{
    lemma_first_named_agrees(trees, others, fields, target, 0);
    if let Some(position) = first_named(trees, target, 0) {
        let model = fields[position];
        assert(trees[position].mirrors(model));
        assert(others[position].mirrors(model));
        if rest.len() > 0 && model.data_type is Struct {
            lemma_name_search_agrees(
                children_of(trees[position])->Some_0,
                children_of(others[position])->Some_0,
                model.data_type->Struct_0,
                rest[0],
                rest.skip(1),
            );
        }
    }
}

/// Searches by name find the same in any two trees of the same fields.
pub proof fn name_hits_agree(
    trees: Seq<Arc<FieldNode>>,
    others: Seq<Arc<FieldNode>>,
    fields: Seq<FieldModel>,
    names: Seq<Seq<char>>,
)
    requires
        trees_mirror(trees, fields),
        trees_mirror(others, fields),
    ensures
        hits_agree(find_all_by_name(trees, names), find_all_by_name(others, names)),
    decreases names.len(),
{
    if names.len() > 0 {
        let name = names.last();
        name_hits_agree(trees, others, fields, names.drop_last());
        lemma_name_search_agrees(
            trees,
            others,
            fields,
            split_dots(name)[0],
            split_dots(name).skip(1),
        );
        lemma_hits_agree(
            find_all_by_name(trees, names.drop_last()),
            find_all_by_name(others, names.drop_last()),
            find_by_dotted_name(trees, name),
            find_by_dotted_name(others, name),
            name_not_found(name),
        );
    }
}

proof fn lemma_id_search_agrees(
    trees: Seq<Arc<FieldNode>>,
    others: Seq<Arc<FieldNode>>,
    fields: Seq<FieldModel>,
    from: int,
    target: i64,
)
    requires
        trees_mirror(trees, fields),
        trees_mirror(others, fields),
    ensures
        outcomes_agree(
            find_by_metadata_id(trees, from, target),
            find_by_metadata_id(others, from, target),
        ),
    decreases fields, fields.len() - from,
{
    if 0 <= from < fields.len() {
        let model = fields[from];
        assert(trees[from].mirrors(model));
        assert(others[from].mirrors(model));
        assert(metadata_id(*trees[from]) == metadata_id(*others[from]));
        if model.data_type is Struct {
            assert(decreases_to!(fields => fields[from]));
            assert(decreases_to!(fields[from] => fields[from].data_type));
            assert(decreases_to!(fields[from].data_type => fields[from].data_type->Struct_0));
            lemma_id_search_agrees(
                children_of(trees[from])->Some_0,
                children_of(others[from])->Some_0,
                model.data_type->Struct_0,
                0,
                target,
            );
        }
        lemma_id_search_agrees(trees, others, fields, from + 1, target);
    }
}

/// Searches by the ids in the fields' metadata find the same in any two trees of
/// the same fields.
pub proof fn id_hits_agree(
    trees: Seq<Arc<FieldNode>>,
    others: Seq<Arc<FieldNode>>,
    fields: Seq<FieldModel>,
    targets: Seq<i32>,
)
    requires
        trees_mirror(trees, fields),
        trees_mirror(others, fields),
    ensures
        hits_agree(
            find_all_by_metadata_id(trees, targets),
            find_all_by_metadata_id(others, targets),
        ),
    decreases targets.len(),
{
    if targets.len() > 0 {
        let front = targets.drop_last();
        let last = targets.last() as i64;
        id_hits_agree(trees, others, fields, front);
        lemma_id_search_agrees(trees, others, fields, 0, last);
        lemma_hits_agree(
            find_all_by_metadata_id(trees, front),
            find_all_by_metadata_id(others, front),
            find_by_metadata_id(trees, 0, last),
            find_by_metadata_id(others, 0, last),
            id_not_found(targets.last()),
        );
    }
}

/// A row is null in the column that a path leads to.
pub open spec fn null_at(columns: Seq<ColumnModel>, path: Seq<usize>, row: int) -> bool {
    &&& column_at(columns, path) is Some
    &&& column_at(columns, path)->Some_0.rows[row] is None
}

/// The rows of a projected column: a row is null exactly if it is null in some
/// column on the path, and otherwise holds what it holds in the column that the
/// path leads to.
pub proof fn projected_rows(
    columns: Seq<ColumnModel>,
    path: Seq<usize>,
    column: ColumnModel,
    row: int,
)
    requires
        projection(columns, path) == Ok::<ColumnModel, ErrorView>(column),
        0 <= row < column.rows.len(),
    ensures
        column.rows.len() == column_at(columns, path)->Some_0.rows.len(),
        column.data_type == column_at(columns, path)->Some_0.data_type,
        column.rows[row] is None <==> exists|level: int|
            0 <= level < path.len() && null_at(columns, #[trigger] path.skip(level), row),
        column.rows[row] is Some ==> column.rows[row] == column_at(
            columns,
            path,
        )->Some_0.rows[row],
{
    lemma_row_hidden(columns, path, row);
    lemma_visible_bit(columns, path, row);
}

/// A visible row holds a value.
proof fn lemma_visible_bit(columns: Seq<ColumnModel>, path: Seq<usize>, row: int)
    requires
        column_at(columns, path) is Some,
        0 <= row < column_at(columns, path)->Some_0.rows.len(),
    ensures
        visible_bits(columns, path)[row] ==> column_at(columns, path)->Some_0.rows[row] is Some,
{
}

/// A projected column marks a null exactly if one of its rows is null.
pub proof fn projection_marks_nulls(columns: Seq<ColumnModel>, path: Seq<usize>)
    requires
        projection(columns, path) is Ok,
    ensures
        projection(columns, path)->Ok_0.marks_nulls <==> exists|row: int|
            0 <= row < projection(columns, path)->Ok_0.rows.len() && (
            #[trigger] projection(columns, path)->Ok_0.rows[row]) is None,
{
    let column = projection(columns, path)->Ok_0;
    let bits = visible_bits(columns, path);
    if column.marks_nulls {
        let row = choose|row: int| 0 <= row < bits.len() && bits[row] == false;
        assert(column.rows[row] is None);
    }
    if exists|row: int| 0 <= row < column.rows.len() && (#[trigger] column.rows[row]) is None {
        let row = choose|row: int|
            0 <= row < column.rows.len() && (#[trigger] column.rows[row]) is None;
        lemma_visible_bit(columns, path, row);
        assert(bits[row] == false);
    }
}

proof fn lemma_row_hidden(columns: Seq<ColumnModel>, path: Seq<usize>, row: int)
    requires
        column_at(columns, path) is Some,
    ensures
        !row_visible(columns, path, row) <==> exists|level: int|
            0 <= level < path.len() && null_at(columns, #[trigger] path.skip(level), row),
    decreases path.len(),
{
    assert(path.skip(0) =~= path);
    if path.len() > 1 {
        let upper = path.drop_first();
        lemma_row_hidden(columns, upper, row);
        assert forall|level: int| 0 <= level < upper.len() implies #[trigger] upper.skip(level)
            == path.skip(level + 1) by {
            assert(upper.skip(level) =~= path.skip(level + 1));
        }
        if exists|level: int|
            0 <= level < path.len() && null_at(columns, #[trigger] path.skip(level), row) {
            let level = choose|level: int|
                0 <= level < path.len() && null_at(columns, #[trigger] path.skip(level), row);
            if level > 0 {
                assert(upper.skip(level - 1) == path.skip(level));
            }
        }
        if exists|level: int|
            0 <= level < upper.len() && null_at(columns, #[trigger] upper.skip(level), row) {
            let level = choose|level: int|
                0 <= level < upper.len() && null_at(columns, #[trigger] upper.skip(level), row);
            assert(path.skip(level + 1) == upper.skip(level));
        }
    }
}

/// A top-level column is projected with the rows it has.
pub proof fn top_level_rows_kept(columns: Seq<ColumnModel>, position: usize)
    requires
        projection(columns, seq![position]) is Ok,
    ensures
        projection(columns, seq![position])->Ok_0.rows == columns[position as int].rows,
        projection(columns, seq![position])->Ok_0.data_type == columns[position as int].data_type,
        projection(columns, seq![position])->Ok_0.children == columns[position as int].children,
{
    let path = seq![position];
    let leaf = columns[position as int];
    let column = projection(columns, path)->Ok_0;
    assert forall|row: int| 0 <= row < leaf.rows.len() implies #[trigger] column.rows[row]
        == leaf.rows[row] by {
        assert(row_visible(columns, path, row) == (leaf.rows[row] is Some));
    }
    assert(column.rows =~= leaf.rows);
}

/// In every struct column, each column below is of exactly the type of its field.
pub open spec fn exact_types(column: ColumnModel) -> bool
    decreases column,
{
    match (column.data_type, column.children) {
        (TypeModel::Struct(fields), Some(children)) => {
            &&& children.len() == fields.len()
            &&& forall|i: int|
                #![trigger children[i]]
                0 <= i < children.len() ==> {
                    &&& children[i].data_type == fields[i].data_type
                    &&& exact_types(children[i])
                }
        },
        (TypeModel::Struct(_), None) => false,
        _ => true,
    }
}

/// Every column is of exactly the type of its field, and so on below.
pub open spec fn types_match(fields: Seq<FieldModel>, columns: Seq<ColumnModel>) -> bool {
    forall|i: int|
        #![trigger columns[i]]
        0 <= i < columns.len() ==> columns[i].data_type == fields[i].data_type && exact_types(
            columns[i],
        )
}

/// Where every column of a batch is of exactly the type of its field, so is every
/// column that a path to a field leads to.
pub proof fn field_type_is_column_type(
    trees: Seq<Arc<FieldNode>>,
    fields: Seq<FieldModel>,
    columns: Seq<ColumnModel>,
    path: Seq<usize>,
)
    requires
        trees_mirror(trees, fields),
        columns_fit(fields, columns),
        types_match(fields, columns),
        field_at(trees, path) is Some,
    ensures
        column_at(columns, path) is Some,
        exact_types(column_at(columns, path)->Some_0),
        column_at(columns, path)->Some_0.data_type == model_of(
            field_at(trees, path)->Some_0,
        ).data_type,
    decreases path.len(),
{
    field_has_column(trees, fields, columns, path);
    let position = path[0] as int;
    if path.len() == 1 {
        assert(trees[position].mirrors(fields[position]));
        assert(columns[position].data_type == fields[position].data_type);
    } else {
        let upper = path.drop_first();
        field_mirrors_itself(trees, fields, upper);
        field_type_is_column_type(trees, fields, columns, upper);
        let parent = field_at(trees, upper)->Some_0;
        let column = column_at(columns, upper)->Some_0;
        let children = children_of(parent)->Some_0;
        assert(children[position].mirrors(model_of(parent).data_type->Struct_0[position]));
        assert(column.children->Some_0[position].data_type
            == column.data_type->Struct_0[position].data_type);
    }
}

/// A flat type, or a struct of such types.
pub open spec fn simple_type(data_type: TypeModel) -> bool
    decreases data_type,
{
    match data_type {
        TypeModel::Flat(_) => true,
        TypeModel::Struct(fields) => forall|i: int|
            #![trigger fields[i]]
            0 <= i < fields.len() ==> simple_type(fields[i].data_type),
        _ => false,
    }
}

/// A column of a simple type is well made if it is exactly of its type.
pub proof fn simple_columns_well_made(column: ColumnModel)
    requires
        simple_type(column.data_type),
        exact_types(column),
    ensures
        well_made(column),
    decreases column,
{
    if column.data_type is Struct {
        let fields = column.data_type->Struct_0;
        let children = column.children->Some_0;
        assert forall|i: int| #![trigger children[i]] 0 <= i < children.len() implies well_made(
            children[i],
        ) by {
            assert(decreases_to!(column => column.children));
            assert(decreases_to!(column.children => column.children->Some_0));
            assert(decreases_to!(children => children[i]));
            assert(simple_type(fields[i].data_type));
            simple_columns_well_made(children[i]);
        }
    }
}

/// Every column is well made.
pub open spec fn all_well_made(columns: Seq<ColumnModel>) -> bool {
    forall|i: int| #![trigger columns[i]] 0 <= i < columns.len() ==> well_made(columns[i])
}

/// What a path leads to in columns that are well made is well made.
proof fn lemma_well_made_below(columns: Seq<ColumnModel>, path: Seq<usize>)
    requires
        all_well_made(columns),
        column_at(columns, path) is Some,
        forall|skipped: int|
            0 < skipped < path.len() ==> (column_at(
                columns,
                #[trigger] path.skip(skipped),
            )->Some_0.data_type is Struct),
    ensures
        well_made(column_at(columns, path)->Some_0),
    decreases path.len(),
{
    if path.len() == 1 {
        assert(well_made(columns[path[0] as int]));
    } else {
        let upper = path.drop_first();
        assert forall|skipped: int| 0 < skipped < upper.len() implies (column_at(
            columns,
            #[trigger] upper.skip(skipped),
        )->Some_0.data_type is Struct) by {
            assert(upper.skip(skipped) =~= path.skip(skipped + 1));
        }
        lemma_well_made_below(columns, upper);
        assert(path.skip(1) =~= upper);
        let parent = column_at(columns, upper)->Some_0;
        assert(well_made(parent.children->Some_0[path[0] as int]));
    }
}

/// On the way to a field of a batch's schema every column is a struct column.
proof fn lemma_structs_on_the_way(
    trees: Seq<Arc<FieldNode>>,
    fields: Seq<FieldModel>,
    columns: Seq<ColumnModel>,
    path: Seq<usize>,
    skipped: int,
)
    requires
        trees_mirror(trees, fields),
        columns_fit(fields, columns),
        field_at(trees, path) is Some,
        0 < skipped < path.len(),
    ensures
        column_at(columns, path.skip(skipped)) is Some,
        column_at(columns, path.skip(skipped))->Some_0.data_type is Struct,
    decreases skipped,
{
    let upper = path.drop_first();
    if skipped == 1 {
        assert(path.skip(1) =~= upper);
        field_has_column(trees, fields, columns, upper);
        field_mirrors_itself(trees, fields, upper);
    } else {
        assert(path.skip(skipped) =~= upper.skip(skipped - 1));
        lemma_structs_on_the_way(trees, fields, columns, upper, skipped - 1);
    }
}

/// If the columns of a batch are well made, so is the column of every field of its
/// schema, however deep.
pub proof fn well_made_throughout(
    trees: Seq<Arc<FieldNode>>,
    fields: Seq<FieldModel>,
    columns: Seq<ColumnModel>,
    path: Seq<usize>,
)
    requires
        trees_mirror(trees, fields),
        columns_fit(fields, columns),
        all_well_made(columns),
        field_at(trees, path) is Some,
    ensures
        well_made(column_at(columns, path)->Some_0),
{
    field_has_column(trees, fields, columns, path);
    assert forall|skipped: int| 0 < skipped < path.len() implies (column_at(
        columns,
        #[trigger] path.skip(skipped),
    )->Some_0.data_type is Struct) by {
        lemma_structs_on_the_way(trees, fields, columns, path, skipped);
    }
    lemma_well_made_below(columns, path);
}

/// A field of a batch's schema is projected if its column is well made and its type
/// can carry a null buffer.
pub proof fn well_made_field_projects(
    trees: Seq<Arc<FieldNode>>,
    fields: Seq<FieldModel>,
    columns: Seq<ColumnModel>,
    path: Seq<usize>,
)
    requires
        trees_mirror(trees, fields),
        columns_fit(fields, columns),
        field_at(trees, path) is Some,
        well_made(column_at(columns, path)->Some_0),
        !(model_of(field_at(trees, path)->Some_0).data_type is Bare),
    ensures
        projection(columns, path) is Ok,
        projection(columns, path)->Ok_0.rows.len() == columns[0].rows.len(),
{
    field_has_column(trees, fields, columns, path);
}

/// The column of every hit is well made.
pub open spec fn hits_well_made(
    columns: Seq<ColumnModel>,
    hits: Seq<(Seq<usize>, Arc<FieldNode>)>,
) -> bool {
    forall|k: int|
        #![trigger hits[k]]
        0 <= k < hits.len() ==> well_made(column_at(columns, hits[k].0)->Some_0)
}

/// The column of every field that can be reached through structs is well made.
pub open spec fn fields_well_made(
    trees: Seq<Arc<FieldNode>>,
    columns: Seq<ColumnModel>,
) -> bool {
    forall|path: Seq<usize>|
        #![trigger field_at(trees, path)]
        field_at(trees, path) is Some ==> well_made(column_at(columns, path)->Some_0)
}

/// No hit is of a type that cannot carry a null buffer.
pub open spec fn hits_carry_nulls(hits: Seq<(Seq<usize>, Arc<FieldNode>)>) -> bool {
    forall|k: int|
        #![trigger hits[k]]
        0 <= k < hits.len() ==> !(model_of(hits[k].1).data_type is Bare)
}

/// Hits in the schema of a batch are all projected if their columns are well made
/// and their types can carry a null buffer. The columns come in the order of the
/// hits, each as long as the batch.
pub proof fn well_made_hits_project(
    trees: Seq<Arc<FieldNode>>,
    fields: Seq<FieldModel>,
    columns: Seq<ColumnModel>,
    hits: Seq<(Seq<usize>, Arc<FieldNode>)>,
)
    requires
        trees_mirror(trees, fields),
        columns_fit(fields, columns),
        hits_lead(trees, hits),
        hits_well_made(columns, hits),
        hits_carry_nulls(hits),
    ensures
        projections(columns, hit_paths(hits)) matches Ok(projected) && projected.len()
            == hits.len() && forall|k: int|
            #![trigger projected[k]]
            0 <= k < hits.len() ==> projection(columns, hits[k].0) == Ok::<ColumnModel, ErrorView>(
                projected[k],
            ) && projected[k].rows.len() == columns[0].rows.len(),
{
    let paths = hit_paths(hits);
    projections_in_order(columns, paths);
    assert forall|k: int| #![trigger paths[k]] 0 <= k < paths.len() implies projection(
        columns,
        paths[k],
    ) is Ok && projection(columns, paths[k])->Ok_0.rows.len() == columns[0].rows.len() by {
        assert(field_at(trees, hits[k].0) == Some(hits[k].1));
        well_made_field_projects(trees, fields, columns, hits[k].0);
    }
    let projected = projections(columns, paths)->Ok_0;
    assert forall|k: int| #![trigger projected[k]] 0 <= k < hits.len() implies projection(
        columns,
        hits[k].0,
    ) == Ok::<ColumnModel, ErrorView>(projected[k]) && projected[k].rows.len()
        == columns[0].rows.len() by {
        assert(paths[k] == hits[k].0);
    }
}

/// No row is null in a column whose field does not allow it.
pub open spec fn nulls_allowed(fields: Seq<FieldModel>, columns: Seq<ColumnModel>) -> bool {
    forall|k: int, row: int|
        #![trigger columns[k].rows[row]]
        0 <= k < columns.len() && 0 <= row < columns[k].rows.len() && columns[k].rows[row] is None
            ==> fields[k].nullable
}

/// The column of every hit is of exactly the type of its field.
pub open spec fn hits_typed(
    columns: Seq<ColumnModel>,
    hits: Seq<(Seq<usize>, Arc<FieldNode>)>,
) -> bool {
    forall|k: int|
        #![trigger hits[k]]
        0 <= k < hits.len() ==> column_at(columns, hits[k].0)->Some_0.data_type == model_of(
            hits[k].1,
        ).data_type
}

/// The columns projected for hits in the schema of a batch make a record batch of
/// the projected schema exactly if there is at least one and none has a null that
/// its field does not allow. (A null of an outer struct counts: it is a null of
/// the projected column.)
pub proof fn hits_make_batch(
    trees: Seq<Arc<FieldNode>>,
    fields: Seq<FieldModel>,
    columns: Seq<ColumnModel>,
    hits: Seq<(Seq<usize>, Arc<FieldNode>)>,
    projected: Seq<ColumnModel>,
)
    requires
        trees_mirror(trees, fields),
        columns_fit(fields, columns),
        hits_lead(trees, hits),
        hits_typed(columns, hits),
        projections(columns, hit_paths(hits)) == Ok::<Seq<ColumnModel>, ErrorView>(projected),
    ensures
        batch_accepts(hit_schema(hits), projected) <==> projected.len() > 0 && nulls_allowed(
            hit_schema(hits).fields,
            projected,
        ),
{
    let schema = hit_schema(hits);
    let paths = hit_paths(hits);
    projections_in_order(columns, paths);
    assert forall|k: int|
        #![trigger projected[k]]
        0 <= k < projected.len() implies projected[k].data_type == schema.fields[k].data_type
        && projected[k].rows.len() == columns[0].rows.len() && (projected[k].marks_nulls
        <==> exists|row: int|
        0 <= row < projected[k].rows.len() && (#[trigger] projected[k].rows[row]) is None) by {
        assert(projection(columns, paths[k]) == Ok::<ColumnModel, ErrorView>(projected[k]));
        assert(field_at(trees, hits[k].0) == Some(hits[k].1));
        field_has_column(trees, fields, columns, hits[k].0);
        projection_marks_nulls(columns, hits[k].0);
    }
    if projected.len() > 0 {
        assert(projected[0].rows.len() == columns[0].rows.len());
        if nulls_allowed(schema.fields, projected) {
            assert forall|k: int| #![trigger projected[k]] 0 <= k < projected.len() implies (
            schema.fields[k].nullable || !projected[k].marks_nulls) by {
                if projected[k].marks_nulls {
                    let row = choose|row: int|
                        0 <= row < projected[k].rows.len() && (
                        #[trigger] projected[k].rows[row]) is None;
                    assert(projected[k].rows[row] is None);
                }
            }
        }
        if batch_accepts(schema, projected) {
            assert forall|k: int, row: int|
                #![trigger projected[k].rows[row]]
                0 <= k < projected.len() && 0 <= row < projected[k].rows.len()
                    && projected[k].rows[row] is None implies schema.fields[k].nullable by {
                assert(projected[k].marks_nulls);
            }
        }
    }
}

/// The columns for hits, or an error of projecting them; or the error that took
/// the place of the hits.
pub open spec fn columns_for(columns: Seq<ColumnModel>, hits: Hits) -> Result<
    Seq<ColumnModel>,
    ErrorView,
> {
    match hits {
        Ok(found) => projections(columns, hit_paths(found)),
        Err(error) => Err(error),
    }
}

/// Trees that find the same give the same columns.
pub proof fn agreeing_hits_same_columns(columns: Seq<ColumnModel>, left: Hits, right: Hits)
    requires
        hits_agree(left, right),
    ensures
        columns_for(columns, left) == columns_for(columns, right),
{
}

/// No field that can be reached through structs is of a type that cannot carry a
/// null buffer.
pub open spec fn fields_carry_nulls(trees: Seq<Arc<FieldNode>>) -> bool {
    forall|path: Seq<usize>|
        #![trigger field_at(trees, path)]
        field_at(trees, path) is Some ==> !(model_of(
            field_at(trees, path)->Some_0,
        ).data_type is Bare)
}

/// Every id in the metadata of a field that can be reached through structs parses.
pub open spec fn ids_parse(trees: Seq<Arc<FieldNode>>) -> bool {
    forall|path: Seq<usize>|
        #![trigger field_at(trees, path)]
        field_at(trees, path) is Some ==> metadata_id(*field_at(trees, path)->Some_0) is Ok
}

/// Some field that can be reached through structs has this id in its metadata.
pub open spec fn id_present(trees: Seq<Arc<FieldNode>>, id: i64) -> bool {
    exists|path: Seq<usize>|
        #![trigger field_at(trees, path)]
        field_at(trees, path) is Some && metadata_id(*field_at(trees, path)->Some_0) == Ok::<
            Option<i64>,
            ErrorView,
        >(Some(id))
}

/// If nothing bars the search from a struct, every path that leads to a field can
/// be reached.
pub(crate) proof fn lemma_all_reachable(trees: Seq<Arc<FieldNode>>, path: Seq<usize>)
    requires
        field_at(trees, path) is Some,
    ensures
        reachable(trees, path, |field: FieldNode| true),
    decreases path.len(),
{
    if path.len() > 1 {
        lemma_all_reachable(trees, path.drop_first());
    }
}

/// A search for an id in metadata that parses finds the first field that has the
/// id, if there is one, and never fails.
pub proof fn metadata_id_found(trees: Seq<Arc<FieldNode>>, id: i64)
    requires
        trees.len() <= usize::MAX,
        ids_parse(trees),
    ensures
        match find_by_metadata_id(trees, 0, id) {
            Outcome::Found { path, field } => {
                &&& field_at(trees, path) == Some(field)
                &&& metadata_id(*field) == Ok::<Option<i64>, ErrorView>(Some(id))
                &&& forall|other: Seq<usize>|
                    #![trigger field_at(trees, other)]
                    field_at(trees, other) is Some && metadata_id(
                        *field_at(trees, other)->Some_0,
                    ) == Ok::<Option<i64>, ErrorView>(Some(id)) ==> !precedes(other, path)
            },
            Outcome::Missing => !id_present(trees, id),
            Outcome::Failed(_) => false,
        },
{
    let ids = |field: FieldNode| metadata_id(field);
    let enters = |field: FieldNode| true;
    id_search_first(trees, id, ids, enters);
    let outcome = find_by_metadata_id(trees, 0, id);
    match outcome {
        Outcome::Found { path, field } => {
            assert forall|other: Seq<usize>|
                #![trigger field_at(trees, other)]
                field_at(trees, other) is Some && metadata_id(*field_at(trees, other)->Some_0)
                    == Ok::<Option<i64>, ErrorView>(Some(id)) implies !precedes(other, path) by {
                lemma_all_reachable(trees, other);
                assert(reachable(trees, other, enters));
                assert(decides(trees, other, id, ids));
            }
        },
        Outcome::Missing => {
            assert forall|other: Seq<usize>|
                #![trigger field_at(trees, other)]
                field_at(trees, other) is Some implies metadata_id(
                *field_at(trees, other)->Some_0,
            ) != Ok::<Option<i64>, ErrorView>(Some(id)) by {
                lemma_all_reachable(trees, other);
                assert(reachable(trees, other, enters));
                assert(!decides(trees, other, id, ids));
            }
        },
        Outcome::Failed(error) => {
            let path = choose|path: Seq<usize>|
                {
                    &&& #[trigger] first_decision(trees, 0, path, id, ids, enters)
                    &&& ids(*field_at(trees, path)->Some_0) == Err::<Option<i64>, ErrorView>(
                        error,
                    )
                };
            assert(field_at(trees, path) is Some);
        },
    }
}

/// Looking columns up by the ids in a batch's metadata fails only if an id is
/// missing there, with the error that names the first one missing. Otherwise there
/// is one column for each id, in order. This holds if every id in the metadata
/// parses, and the columns of all fields are well made and of types that can carry
/// a null buffer.
pub proof fn id_lookup_fails_only_for_missing(
    trees: Seq<Arc<FieldNode>>,
    fields: Seq<FieldModel>,
    columns: Seq<ColumnModel>,
    targets: Seq<i32>,
)
    requires
        trees.len() <= usize::MAX,
        trees_mirror(trees, fields),
        columns_fit(fields, columns),
        fields_well_made(trees, columns),
        fields_carry_nulls(trees),
        ids_parse(trees),
    ensures
        match columns_for(columns, find_all_by_metadata_id(trees, targets)) {
            Ok(projected) => {
                &&& projected.len() == targets.len()
                &&& forall|k: int|
                    #![trigger targets[k]]
                    0 <= k < targets.len() ==> id_present(trees, targets[k] as i64)
            },
            Err(error) => exists|k: int|
                #![trigger targets[k]]
                {
                    &&& 0 <= k < targets.len()
                    &&& !id_present(trees, targets[k] as i64)
                    &&& forall|j: int|
                        #![trigger targets[j]]
                        0 <= j < k ==> id_present(trees, targets[j] as i64)
                    &&& error == id_not_found(targets[k])
                },
        },
{
    let ids = |field: FieldNode| metadata_id(field);
    let enters = |field: FieldNode| true;
    id_hits_lead(trees, targets, ids, enters);
    id_hits_in_order(trees, targets, ids, enters);
    assert forall|k: int| #![trigger targets[k]] 0 <= k < targets.len() implies ({
        let outcome = find_by_id(trees, 0, targets[k] as i64, ids, enters);
        &&& outcome is Found <==> id_present(trees, targets[k] as i64)
        &&& !(outcome is Failed)
    }) by {
        metadata_id_found(trees, targets[k] as i64);
        assert(find_by_metadata_id(trees, 0, targets[k] as i64) == find_by_id(
            trees,
            0,
            targets[k] as i64,
            ids,
            enters,
        ));
    }
    if let Ok(hits) = find_all_by_metadata_id(trees, targets) {
        assert forall|k: int| #![trigger hits[k]] 0 <= k < hits.len() implies !(model_of(
            hits[k].1,
        ).data_type is Bare) && well_made(column_at(columns, hits[k].0)->Some_0) by {
            assert(field_at(trees, hits[k].0) == Some(hits[k].1));
        }
        well_made_hits_project(trees, fields, columns, hits);
    }
}

/// Looking columns up by name in a batch's schema fails only if a search by name
/// does, with its error. Otherwise there is one column for each name, in order.
/// This holds if the columns of all fields are well made and of types that can carry
/// a null buffer.
pub proof fn name_lookup_fails_only_in_search(
    trees: Seq<Arc<FieldNode>>,
    fields: Seq<FieldModel>,
    columns: Seq<ColumnModel>,
    names: Seq<Seq<char>>,
)
    requires
        trees.len() <= usize::MAX,
        trees_mirror(trees, fields),
        columns_fit(fields, columns),
        fields_well_made(trees, columns),
        fields_carry_nulls(trees),
    ensures
        match columns_for(columns, find_all_by_name(trees, names)) {
            Ok(projected) => projected.len() == names.len() && find_all_by_name(
                trees,
                names,
            ) is Ok,
            Err(error) => find_all_by_name(trees, names) == Hits::Err(error),
        },
{
    name_hits_lead(trees, names);
    if let Ok(hits) = find_all_by_name(trees, names) {
        assert forall|k: int| #![trigger hits[k]] 0 <= k < hits.len() implies !(model_of(
            hits[k].1,
        ).data_type is Bare) && well_made(column_at(columns, hits[k].0)->Some_0) by {
            assert(field_at(trees, hits[k].0) == Some(hits[k].1));
        }
        well_made_hits_project(trees, fields, columns, hits);
    }
}

} // verus!
