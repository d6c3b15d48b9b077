//! What a lookup of columns does not depend on: the order of a batch's columns,
//! the names of its fields if ids are looked up, and their metadata if names are.

use std::sync::Arc;

use vstd::prelude::*;

use crate::columns::{column_at, projection, projections, row_visible, visible_bits};
use crate::contents::{field_id_text, ColumnModel, FieldModel, TypeModel};
use crate::error::ErrorView;
use crate::fit::{
    columns_for, field_mirrors_itself, hit_paths, id_present, ids_parse, metadata_id_found,
};
use crate::lookup::{
    add_hit, children_of, field_at, find_all_by_metadata_id, find_all_by_name, find_by_dotted_name,
    find_by_metadata_id, find_by_name, first_named, id_not_found,
    lemma_field_below, lemma_first_named, lemma_path_top, name_not_found, Hits, Outcome,
};
use crate::schema::{metadata_id, model_of, trees_mirror, FieldNode};
use crate::text::split_dots;

verus! {

/// `order` lists every position below `len` once.
pub open spec fn rearranges(order: Seq<int>, len: nat) -> bool {
    &&& order.len() == len
    &&& order.no_duplicates()
    &&& forall|j: int| #![trigger order[j]] 0 <= j < len ==> 0 <= order[j] < len
    &&& forall|i: int| #![trigger order.contains(i)] 0 <= i < len ==> order.contains(i)
}

/// The same columns in another order.
pub open spec fn columns_rearranged(
    order: Seq<int>,
    columns: Seq<ColumnModel>,
    others: Seq<ColumnModel>,
) -> bool {
    &&& others.len() == columns.len()
    &&& forall|j: int|
        #![trigger others[j]]
        #![trigger order[j]]
        0 <= j < others.len() ==> others[j] == columns[order[j]]
}

/// Two searches end alike for these columns: at paths with the same projection; or
/// both without one; or with the same error.
spec fn outcomes_project_alike(
    columns: Seq<ColumnModel>,
    left: Outcome,
    others: Seq<ColumnModel>,
    right: Outcome,
) -> bool {
    match (left, right) {
        (Outcome::Found { path, .. }, Outcome::Found { path: other, .. }) => projection(
            columns,
            path,
        ) == projection(others, other),
        (Outcome::Missing, Outcome::Missing) => true,
        (Outcome::Failed(error), Outcome::Failed(other)) => error == other,
        _ => false,
    }
}

/// Hits with the same projections, or the same error.
spec fn hits_project_alike(
    columns: Seq<ColumnModel>,
    left: Hits,
    others: Seq<ColumnModel>,
    right: Hits,
) -> bool {
    match (left, right) {
        (Ok(found), Ok(other)) => projections(columns, hit_paths(found)) == projections(
            others,
            hit_paths(other),
        ),
        (Err(error), Err(other)) => error == other,
        _ => false,
    }
}

proof fn lemma_alike_step(
    columns: Seq<ColumnModel>,
    left: Hits,
    outcome: Outcome,
    others: Seq<ColumnModel>,
    right: Hits,
    other: Outcome,
    not_found: ErrorView,
)
    requires
        hits_project_alike(columns, left, others, right),
        outcomes_project_alike(columns, outcome, others, other),
    ensures
        hits_project_alike(
            columns,
            add_hit(left, outcome, not_found),
            others,
            add_hit(right, other, not_found),
        ),
{
    if left is Ok && outcome is Found {
        let found = left->Ok_0.push((outcome->path, outcome->field));
        let other_found = right->Ok_0.push((other->path, other->field));
        assert(hit_paths(found).drop_last() =~= hit_paths(left->Ok_0));
        assert(hit_paths(other_found).drop_last() =~= hit_paths(right->Ok_0));
        assert(hit_paths(found).last() == outcome->path);
        assert(hit_paths(other_found).last() == other->path);
    }
}

/// A path below a column leads to the same wherever the column stands.
proof fn lemma_column_moved(
    columns: Seq<ColumnModel>,
    position: usize,
    others: Seq<ColumnModel>,
    other: usize,
    inner: Seq<usize>,
)
    requires
        position < columns.len(),
        other < others.len(),
        columns[position as int] == others[other as int],
    ensures
        column_at(columns, inner.push(position)) == column_at(others, inner.push(other)),
        forall|row: int| #[trigger]
            row_visible(columns, inner.push(position), row) == row_visible(
                others,
                inner.push(other),
                row,
            ),
        projection(columns, inner.push(position)) == projection(others, inner.push(other)),
    decreases inner.len(),
{
    let path = inner.push(position);
    let other_path = inner.push(other);
    if inner.len() > 0 {
        lemma_column_moved(columns, position, others, other, inner.drop_first());
        assert(path.drop_first() =~= inner.drop_first().push(position));
        assert(other_path.drop_first() =~= inner.drop_first().push(other));
    }
    assert forall|row: int| #[trigger]
        row_visible(columns, path, row) == row_visible(others, other_path, row) by {
        assert(inner.len() > 0 ==> row_visible(columns, path.drop_first(), row) == row_visible(
            others,
            other_path.drop_first(),
            row,
        ));
    }
    if column_at(columns, path) is Some {
        assert(visible_bits(columns, path) =~= visible_bits(others, other_path));
    }
}

/// A path leads to the same in any two trees of the same fields.
proof fn lemma_field_at_agrees(
    trees: Seq<Arc<FieldNode>>,
    others: Seq<Arc<FieldNode>>,
    fields: Seq<FieldModel>,
    path: Seq<usize>,
)
    requires
        trees_mirror(trees, fields),
        trees_mirror(others, fields),
    ensures
        field_at(trees, path) is Some <==> field_at(others, path) is Some,
        field_at(trees, path) is Some ==> {
            &&& model_of(field_at(trees, path)->Some_0) == model_of(field_at(others, path)->Some_0)
            &&& metadata_id(*field_at(trees, path)->Some_0) == metadata_id(
                *field_at(others, path)->Some_0,
            )
        },
    decreases path.len(),
{
    if path.len() > 1 {
        let upper = path.drop_first();
        lemma_field_at_agrees(trees, others, fields, upper);
        if field_at(trees, upper) is Some {
            field_mirrors_itself(trees, fields, upper);
            field_mirrors_itself(others, fields, upper);
            let position = path[0] as int;
            let parent = field_at(trees, upper)->Some_0;
            let other = field_at(others, upper)->Some_0;
            if let TypeModel::Struct(inner) = model_of(parent).data_type {
                let children = children_of(parent)->Some_0;
                let other_children = children_of(other)->Some_0;
                if position < children.len() {
                    assert(children[position].mirrors(inner[position]));
                    assert(other_children[position].mirrors(inner[position]));
                }
            }
        }
    } else if path.len() == 1 {
        let position = path[0] as int;
        if position < fields.len() {
            assert(trees[position].mirrors(fields[position]));
            assert(others[position].mirrors(fields[position]));
        }
    }
}

/// Two fields with the same id in their metadata and of the same type. The names
/// may differ.
pub open spec fn same_id(left: FieldModel, right: FieldModel) -> bool {
    &&& field_id_text(left) == field_id_text(right)
    &&& left.data_type == right.data_type
}

/// The same ids and types in another order.
pub open spec fn ids_rearranged(
    order: Seq<int>,
    fields: Seq<FieldModel>,
    others: Seq<FieldModel>,
) -> bool {
    &&& others.len() == fields.len()
    &&& forall|j: int|
        #![trigger others[j]]
        #![trigger order[j]]
        0 <= j < others.len() ==> same_id(others[j], fields[order[j]])
}

/// No two fields that can be reached through structs have the same id.
pub open spec fn ids_distinct(trees: Seq<Arc<FieldNode>>) -> bool {
    forall|path: Seq<usize>, other: Seq<usize>|
        #![trigger field_at(trees, path), field_at(trees, other)]
        field_at(trees, path) is Some && field_at(trees, other) is Some && metadata_id(
            *field_at(trees, path)->Some_0,
        ) == metadata_id(*field_at(trees, other)->Some_0) && (metadata_id(
            *field_at(trees, path)->Some_0,
        ) matches Ok(Some(_))) ==> path == other
}

/// A path below a field leads to a field with the same id wherever the field
/// stands.
proof fn lemma_id_moved(
    trees: Seq<Arc<FieldNode>>,
    fields: Seq<FieldModel>,
    position: usize,
    others: Seq<Arc<FieldNode>>,
    other_fields: Seq<FieldModel>,
    other: usize,
    inner: Seq<usize>,
)
    requires
        trees_mirror(trees, fields),
        trees_mirror(others, other_fields),
        position < fields.len(),
        other < other_fields.len(),
        same_id(other_fields[other as int], fields[position as int]),
    ensures
        field_at(trees, inner.push(position)) is Some <==> field_at(
            others,
            inner.push(other),
        ) is Some,
        field_at(trees, inner.push(position)) is Some ==> metadata_id(
            *field_at(trees, inner.push(position))->Some_0,
        ) == metadata_id(*field_at(others, inner.push(other))->Some_0),
{
    let here = trees[position as int];
    let there = others[other as int];
    assert(here.mirrors(fields[position as int]));
    assert(there.mirrors(other_fields[other as int]));
    if inner.len() == 0 {
        assert(field_at(trees, inner.push(position)) == Some(here));
        assert(field_at(others, inner.push(other)) == Some(there));
    } else {
        if children_of(here) is Some {
            let children = children_of(here)->Some_0;
            let other_children = children_of(there)->Some_0;
            lemma_field_below(trees, position, children, inner);
            lemma_field_below(others, other, other_children, inner);
            lemma_field_at_agrees(
                children,
                other_children,
                fields[position as int].data_type->Struct_0,
                inner,
            );
        } else {
            if field_at(trees, inner.push(position)) is Some {
                lemma_path_top(trees, inner.push(position));
            }
            if field_at(others, inner.push(other)) is Some {
                lemma_path_top(others, inner.push(other));
            }
        }
    }
}

/// A search for an id ends alike in two batches that hold the same columns, with
/// the same ids, in different orders.
proof fn lemma_id_search_moved(
    order: Seq<int>,
    trees: Seq<Arc<FieldNode>>,
    fields: Seq<FieldModel>,
    columns: Seq<ColumnModel>,
    others: Seq<Arc<FieldNode>>,
    other_fields: Seq<FieldModel>,
    other_columns: Seq<ColumnModel>,
    id: i64,
)
    requires
        trees.len() <= usize::MAX,
        trees_mirror(trees, fields),
        trees_mirror(others, other_fields),
        columns.len() == fields.len(),
        rearranges(order, fields.len()),
        ids_rearranged(order, fields, other_fields),
        columns_rearranged(order, columns, other_columns),
        ids_parse(trees),
        ids_distinct(trees),
    ensures
        outcomes_project_alike(
            columns,
            find_by_metadata_id(trees, 0, id),
            other_columns,
            find_by_metadata_id(others, 0, id),
        ),
{
    assert forall|path: Seq<usize>|
        #![trigger field_at(others, path)]
        field_at(others, path) is Some implies {
        let position = order[path.last() as int] as usize;
        &&& field_at(trees, path.drop_last().push(position)) is Some
        &&& metadata_id(*field_at(trees, path.drop_last().push(position))->Some_0) == metadata_id(
            *field_at(others, path)->Some_0,
        )
        &&& metadata_id(*field_at(others, path)->Some_0) is Ok
    } by {
        lemma_path_top(others, path);
        let position = order[path.last() as int] as usize;
        lemma_id_moved(
            trees,
            fields,
            position,
            others,
            other_fields,
            path.last(),
            path.drop_last(),
        );
        assert(field_at(trees, path.drop_last().push(position)) is Some);
    }
    assert(ids_parse(others));
    metadata_id_found(trees, id);
    metadata_id_found(others, id);
    let left = find_by_metadata_id(trees, 0, id);
    let right = find_by_metadata_id(others, 0, id);
    if left is Found {
        let path = left->path;
        lemma_path_top(trees, path);
        let position = path.last();
        assert(order.contains(position as int));
        let place = choose|place: int| 0 <= place < order.len() && order[place] == position as int;
        assert(same_id(other_fields[place], fields[order[place]]));
        let moved = path.drop_last().push(place as usize);
        lemma_id_moved(
            trees,
            fields,
            position,
            others,
            other_fields,
            place as usize,
            path.drop_last(),
        );
        assert(field_at(others, moved) is Some);
        assert(id_present(others, id));
        assert(right is Found);
    }
    if right is Found {
        let path = right->path;
        lemma_path_top(others, path);
        let position = order[path.last() as int] as usize;
        let inner = path.drop_last();
        let back = inner.push(position);
        assert(field_at(trees, back) is Some);
        assert(id_present(trees, id));
        assert(left is Found);
        assert(field_at(trees, left->path) is Some);
        assert(back == left->path);
        assert(other_columns[path.last() as int] == columns[order[path.last() as int]]);
        lemma_column_moved(columns, position, other_columns, path.last(), inner);
    }
}

proof fn lemma_id_hits_moved(
    order: Seq<int>,
    trees: Seq<Arc<FieldNode>>,
    fields: Seq<FieldModel>,
    columns: Seq<ColumnModel>,
    others: Seq<Arc<FieldNode>>,
    other_fields: Seq<FieldModel>,
    other_columns: Seq<ColumnModel>,
    targets: Seq<i32>,
)
    requires
        trees.len() <= usize::MAX,
        trees_mirror(trees, fields),
        trees_mirror(others, other_fields),
        columns.len() == fields.len(),
        rearranges(order, fields.len()),
        ids_rearranged(order, fields, other_fields),
        columns_rearranged(order, columns, other_columns),
        ids_parse(trees),
        ids_distinct(trees),
    ensures
        hits_project_alike(
            columns,
            find_all_by_metadata_id(trees, targets),
            other_columns,
            find_all_by_metadata_id(others, targets),
        ),
    decreases targets.len(),
{
    if targets.len() > 0 {
        let front = targets.drop_last();
        let last = targets.last() as i64;
        lemma_id_hits_moved(
            order,
            trees,
            fields,
            columns,
            others,
            other_fields,
            other_columns,
            front,
        );
        lemma_id_search_moved(
            order,
            trees,
            fields,
            columns,
            others,
            other_fields,
            other_columns,
            last,
        );
        lemma_alike_step(
            columns,
            find_all_by_metadata_id(trees, front),
            find_by_metadata_id(trees, 0, last),
            other_columns,
            find_all_by_metadata_id(others, front),
            find_by_metadata_id(others, 0, last),
            id_not_found(targets.last()),
        );
    } else {
        assert(hit_paths(Seq::<(Seq<usize>, Arc<FieldNode>)>::empty()) =~= Seq::empty());
    }
}

/// Columns are found by id, never by position or name: putting a batch's top-level
/// columns in another order, together with their fields, or renaming these fields,
/// does not change what looking ids up gives. The ids in the metadata must parse
/// and be distinct.
pub proof fn id_lookup_order_free(
    order: Seq<int>,
    trees: Seq<Arc<FieldNode>>,
    fields: Seq<FieldModel>,
    columns: Seq<ColumnModel>,
    others: Seq<Arc<FieldNode>>,
    other_fields: Seq<FieldModel>,
    other_columns: Seq<ColumnModel>,
    targets: Seq<i32>,
)
    requires
        trees.len() <= usize::MAX,
        trees_mirror(trees, fields),
        trees_mirror(others, other_fields),
        columns.len() == fields.len(),
        rearranges(order, fields.len()),
        ids_rearranged(order, fields, other_fields),
        columns_rearranged(order, columns, other_columns),
        ids_parse(trees),
        ids_distinct(trees),
    ensures
        columns_for(other_columns, find_all_by_metadata_id(others, targets)) == columns_for(
            columns,
            find_all_by_metadata_id(trees, targets),
        ),
{
    lemma_id_hits_moved(
        order,
        trees,
        fields,
        columns,
        others,
        other_fields,
        other_columns,
        targets,
    );
}

/// Two fields of the same name that nest fields of the same names. Metadata,
/// nullability and the types of what is no struct may differ.
pub open spec fn same_names(left: FieldModel, right: FieldModel) -> bool
    decreases left,
{
    &&& left.name == right.name
    &&& match (left.data_type, right.data_type) {
        (TypeModel::Struct(fields), TypeModel::Struct(others)) => {
            &&& fields.len() == others.len()
            &&& forall|i: int|
                #![trigger fields[i]]
                0 <= i < fields.len() ==> same_names(fields[i], others[i])
        },
        (left, right) => !(left is Struct) && !(right is Struct),
    }
}

/// Fields of the same names in the same order, and so on below.
pub open spec fn all_same_names(fields: Seq<FieldModel>, others: Seq<FieldModel>) -> bool {
    &&& fields.len() == others.len()
    &&& forall|i: int|
        #![trigger fields[i]]
        0 <= i < fields.len() ==> same_names(fields[i], others[i])
}

/// Two searches end at the same path; or both without one; or with the same error.
spec fn same_end(left: Outcome, right: Outcome) -> bool {
    match (left, right) {
        (Outcome::Found { path, .. }, Outcome::Found { path: other, .. }) => path == other,
        (Outcome::Missing, Outcome::Missing) => true,
        (Outcome::Failed(error), Outcome::Failed(other)) => error == other,
        _ => false,
    }
}

proof fn lemma_first_named_same(
    trees: Seq<Arc<FieldNode>>,
    fields: Seq<FieldModel>,
    others: Seq<Arc<FieldNode>>,
    other_fields: Seq<FieldModel>,
    name: Seq<char>,
    from: int,
)
    requires
        trees_mirror(trees, fields),
        trees_mirror(others, other_fields),
        all_same_names(fields, other_fields),
        0 <= from,
    ensures
        first_named(trees, name, from) == first_named(others, name, from),
        first_named(trees, name, from) matches Some(position) ==> from <= position < trees.len(),
    decreases trees.len() - from,
{
    if from < trees.len() {
        assert(trees[from].mirrors(fields[from]));
        assert(others[from].mirrors(other_fields[from]));
        assert(same_names(fields[from], other_fields[from]));
        lemma_first_named_same(trees, fields, others, other_fields, name, from + 1);
    }
}

proof fn lemma_name_search_same(
    trees: Seq<Arc<FieldNode>>,
    fields: Seq<FieldModel>,
    others: Seq<Arc<FieldNode>>,
    other_fields: Seq<FieldModel>,
    target: Seq<char>,
    rest: Seq<Seq<char>>,
)
    requires
        trees_mirror(trees, fields),
        trees_mirror(others, other_fields),
        all_same_names(fields, other_fields),
    ensures
        same_end(find_by_name(trees, target, rest), find_by_name(others, target, rest)),
    decreases rest.len(),
{
    lemma_first_named_same(trees, fields, others, other_fields, target, 0);
    if let Some(position) = first_named(trees, target, 0) {
        assert(trees[position].mirrors(fields[position]));
        assert(others[position].mirrors(other_fields[position]));
        assert(same_names(fields[position], other_fields[position]));
        if rest.len() > 0 && fields[position].data_type is Struct {
            lemma_name_search_same(
                children_of(trees[position])->Some_0,
                fields[position].data_type->Struct_0,
                children_of(others[position])->Some_0,
                other_fields[position].data_type->Struct_0,
                rest[0],
                rest.skip(1),
            );
        }
    }
}

proof fn lemma_name_hits_same(
    trees: Seq<Arc<FieldNode>>,
    fields: Seq<FieldModel>,
    others: Seq<Arc<FieldNode>>,
    other_fields: Seq<FieldModel>,
    columns: Seq<ColumnModel>,
    names: Seq<Seq<char>>,
)
    requires
        trees_mirror(trees, fields),
        trees_mirror(others, other_fields),
        all_same_names(fields, other_fields),
    ensures
        hits_project_alike(
            columns,
            find_all_by_name(trees, names),
            columns,
            find_all_by_name(others, names),
        ),
    decreases names.len(),
{
    if names.len() > 0 {
        let front = names.drop_last();
        let name = names.last();
        lemma_name_hits_same(trees, fields, others, other_fields, columns, front);
        lemma_name_search_same(
            trees,
            fields,
            others,
            other_fields,
            split_dots(name)[0],
            split_dots(name).skip(1),
        );
        lemma_alike_step(
            columns,
            find_all_by_name(trees, front),
            find_by_dotted_name(trees, name),
            columns,
            find_all_by_name(others, front),
            find_by_dotted_name(others, name),
            name_not_found(name),
        );
    } else {
        assert(hit_paths(Seq::<(Seq<usize>, Arc<FieldNode>)>::empty()) =~= Seq::empty());
    }
}

/// Columns are found by name, never by metadata or type: what looking names up gives
/// depends on the names of fields and on how structs nest them, and on nothing else
/// of the schema.
pub proof fn name_lookup_metadata_free(
    trees: Seq<Arc<FieldNode>>,
    fields: Seq<FieldModel>,
    others: Seq<Arc<FieldNode>>,
    other_fields: Seq<FieldModel>,
    columns: Seq<ColumnModel>,
    names: Seq<Seq<char>>,
)
    requires
        trees_mirror(trees, fields),
        trees_mirror(others, other_fields),
        all_same_names(fields, other_fields),
    ensures
        columns_for(columns, find_all_by_name(others, names)) == columns_for(
            columns,
            find_all_by_name(trees, names),
        ),
{
    lemma_name_hits_same(trees, fields, others, other_fields, columns, names);
}

/// The same names in another order of the top-level fields.
pub open spec fn names_rearranged(
    order: Seq<int>,
    fields: Seq<FieldModel>,
    others: Seq<FieldModel>,
) -> bool {
    &&& others.len() == fields.len()
    &&& forall|j: int|
        #![trigger others[j]]
        #![trigger order[j]]
        0 <= j < others.len() ==> same_names(fields[order[j]], others[j])
}

/// No two fields have the same name.
pub open spec fn names_distinct(fields: Seq<FieldModel>) -> bool {
    forall|i: int, j: int|
        #![trigger fields[i], fields[j]]
        0 <= i < fields.len() && 0 <= j < fields.len() && fields[i].name == fields[j].name ==> i
            == j
}

/// The only field of a name is found where it stands.
proof fn lemma_first_named_moved(
    order: Seq<int>,
    trees: Seq<Arc<FieldNode>>,
    fields: Seq<FieldModel>,
    others: Seq<Arc<FieldNode>>,
    other_fields: Seq<FieldModel>,
    name: Seq<char>,
)
    requires
        trees_mirror(trees, fields),
        trees_mirror(others, other_fields),
        rearranges(order, fields.len()),
        names_rearranged(order, fields, other_fields),
        names_distinct(fields),
    ensures
        match (first_named(trees, name, 0), first_named(others, name, 0)) {
            (Some(position), Some(place)) => {
                &&& 0 <= position < trees.len()
                &&& 0 <= place < others.len()
                &&& order[place] == position
            },
            (None, None) => true,
            _ => false,
        },
{
    lemma_first_named(trees, name, 0);
    lemma_first_named(others, name, 0);
    if let Some(position) = first_named(trees, name, 0) {
        assert(trees[position].mirrors(fields[position]));
        assert(order.contains(position));
        let place = choose|place: int| 0 <= place < order.len() && order[place] == position;
        assert(others[place].mirrors(other_fields[place]));
        assert(same_names(fields[order[place]], other_fields[place]));
        assert(others[place].name@ == name);
    }
    if let Some(place) = first_named(others, name, 0) {
        assert(others[place].mirrors(other_fields[place]));
        assert(same_names(fields[order[place]], other_fields[place]));
        assert(trees[order[place]].mirrors(fields[order[place]]));
        assert(trees[order[place]].name@ == name);
        let position = first_named(trees, name, 0)->Some_0;
        assert(trees[position].mirrors(fields[position]));
        assert(fields[position].name == fields[order[place]].name);
    }
}

proof fn lemma_name_search_moved(
    order: Seq<int>,
    trees: Seq<Arc<FieldNode>>,
    fields: Seq<FieldModel>,
    columns: Seq<ColumnModel>,
    others: Seq<Arc<FieldNode>>,
    other_fields: Seq<FieldModel>,
    other_columns: Seq<ColumnModel>,
    target: Seq<char>,
    rest: Seq<Seq<char>>,
)
    requires
        trees.len() <= usize::MAX,
        trees_mirror(trees, fields),
        trees_mirror(others, other_fields),
        columns.len() == fields.len(),
        rearranges(order, fields.len()),
        names_rearranged(order, fields, other_fields),
        names_distinct(fields),
        columns_rearranged(order, columns, other_columns),
    ensures
        outcomes_project_alike(
            columns,
            find_by_name(trees, target, rest),
            other_columns,
            find_by_name(others, target, rest),
        ),
{
    lemma_first_named_moved(order, trees, fields, others, other_fields, target);
    if let Some(position) = first_named(trees, target, 0) {
        let place = first_named(others, target, 0)->Some_0;
        let here = trees[position];
        let there = others[place];
        assert(here.mirrors(fields[position]));
        assert(there.mirrors(other_fields[place]));
        assert(same_names(fields[order[place]], other_fields[place]));
        assert(other_columns[place] == columns[order[place]]);
        if rest.len() == 0 {
            lemma_column_moved(
                columns,
                position as usize,
                other_columns,
                place as usize,
                Seq::empty(),
            );
            assert(Seq::<usize>::empty().push(position as usize) =~= seq![position as usize]);
            assert(Seq::<usize>::empty().push(place as usize) =~= seq![place as usize]);
        } else if fields[position].data_type is Struct {
            let children = children_of(here)->Some_0;
            let other_children = children_of(there)->Some_0;
            lemma_name_search_same(
                children,
                fields[position].data_type->Struct_0,
                other_children,
                other_fields[place].data_type->Struct_0,
                rest[0],
                rest.skip(1),
            );
            let inner = find_by_name(children, rest[0], rest.skip(1));
            if inner is Found {
                lemma_column_moved(
                    columns,
                    position as usize,
                    other_columns,
                    place as usize,
                    inner->path,
                );
            }
        }
    }
}

proof fn lemma_name_hits_moved(
    order: Seq<int>,
    trees: Seq<Arc<FieldNode>>,
    fields: Seq<FieldModel>,
    columns: Seq<ColumnModel>,
    others: Seq<Arc<FieldNode>>,
    other_fields: Seq<FieldModel>,
    other_columns: Seq<ColumnModel>,
    names: Seq<Seq<char>>,
)
    requires
        trees.len() <= usize::MAX,
        trees_mirror(trees, fields),
        trees_mirror(others, other_fields),
        columns.len() == fields.len(),
        rearranges(order, fields.len()),
        names_rearranged(order, fields, other_fields),
        names_distinct(fields),
        columns_rearranged(order, columns, other_columns),
    ensures
        hits_project_alike(
            columns,
            find_all_by_name(trees, names),
            other_columns,
            find_all_by_name(others, names),
        ),
    decreases names.len(),
{
    if names.len() > 0 {
        let front = names.drop_last();
        let name = names.last();
        lemma_name_hits_moved(
            order,
            trees,
            fields,
            columns,
            others,
            other_fields,
            other_columns,
            front,
        );
        lemma_name_search_moved(
            order,
            trees,
            fields,
            columns,
            others,
            other_fields,
            other_columns,
            split_dots(name)[0],
            split_dots(name).skip(1),
        );
        lemma_alike_step(
            columns,
            find_all_by_name(trees, front),
            find_by_dotted_name(trees, name),
            other_columns,
            find_all_by_name(others, front),
            find_by_dotted_name(others, name),
            name_not_found(name),
        );
    } else {
        assert(hit_paths(Seq::<(Seq<usize>, Arc<FieldNode>)>::empty()) =~= Seq::empty());
    }
}

/// Columns are found by name, never by position: putting a batch's top-level columns
/// in another order, together with their fields, does not change what looking names
/// up gives. The names of the top-level fields must be distinct.
pub proof fn name_lookup_order_free(
    order: Seq<int>,
    trees: Seq<Arc<FieldNode>>,
    fields: Seq<FieldModel>,
    columns: Seq<ColumnModel>,
    others: Seq<Arc<FieldNode>>,
    other_fields: Seq<FieldModel>,
    other_columns: Seq<ColumnModel>,
    names: Seq<Seq<char>>,
)
    requires
        trees.len() <= usize::MAX,
        trees_mirror(trees, fields),
        trees_mirror(others, other_fields),
        columns.len() == fields.len(),
        rearranges(order, fields.len()),
        names_rearranged(order, fields, other_fields),
        names_distinct(fields),
        columns_rearranged(order, columns, other_columns),
    ensures
        columns_for(other_columns, find_all_by_name(others, names)) == columns_for(
            columns,
            find_all_by_name(trees, names),
        ),
{
    lemma_name_hits_moved(
        order,
        trees,
        fields,
        columns,
        others,
        other_fields,
        other_columns,
        names,
    );
}

} // verus!
