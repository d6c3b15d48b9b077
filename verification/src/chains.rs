//! Paths taken step by step: which field of a schema, and which column of a batch, a
//! path stands for, and what projecting along it gives.
//!
//! A step of a path is a position in a list of siblings. The first position of a path
//! counts in the first list of siblings here, the last one in the list that the path
//! starts from; in between, each list is what the position behind it picks out.

use std::sync::Arc;

use vstd::prelude::*;

use crate::columns::{
    column_at, path_in_bounds, paths_in_bounds, projection, projections, row_visible, visible_bits,
};
use crate::contents::{builds, ColumnModel, FieldModel, TypeModel};
use crate::error::{ErrorKind, SourceKind};
use crate::lookup::{children_of, field_at};
use crate::schema::{model_of, trees_mirror, FieldNode};

verus! {

/// The children that a search goes through are those of the field.
pub proof fn children_are_the_fields(field: Arc<FieldNode>)
    ensures
        match field.children {
            Some(children) => children_of(field) == Some(children@),
            None => children_of(field) is None,
        },
{
}

/// A path through the children of fields leads to the field at its first position.
pub proof fn path_leads_to_field(
    fields: Seq<Arc<FieldNode>>,
    path: Seq<usize>,
    siblings: Seq<Seq<Arc<FieldNode>>>,
)
    requires
        path.len() > 0,
        siblings.len() == path.len(),
        siblings.last() == fields,
        forall|k: int| 0 <= k < path.len() ==> path[k] < (#[trigger] siblings[k]).len(),
        forall|k: int, above: int|
            #![trigger siblings[k], siblings[above]]
            0 <= k < above == k + 1 < path.len() ==> children_of(
                siblings[above][path[above] as int],
            ) == Some(siblings[k]),
    ensures
        field_at(fields, path) == Some(siblings[0][path[0] as int]),
    decreases path.len(),
{
    assert(path[0] < siblings[0].len());
    if path.len() > 1 {
        let upper = path.drop_first();
        let uppers = siblings.drop_first();
        assert forall|k: int| 0 <= k < upper.len() implies upper[k] < (
        #[trigger] uppers[k]).len() by {
            assert(path[k + 1] < siblings[k + 1].len());
        }
        assert forall|k: int, above: int|
            #![trigger uppers[k], uppers[above]]
            0 <= k < above == k + 1 < upper.len() implies children_of(
            uppers[above][upper[above] as int],
        ) == Some(uppers[k]) by {
            assert(siblings[k + 1] == uppers[k]);
            assert(siblings[above + 1] == uppers[above]);
        }
        path_leads_to_field(fields, upper, uppers);
        assert(children_of(siblings[1][path[1] as int]) == Some(siblings[0]));
    }
}

/// A path that leads to a field is one through the children of fields.
pub proof fn field_has_path(fields: Seq<Arc<FieldNode>>, path: Seq<usize>) -> (siblings: Seq<
    Seq<Arc<FieldNode>>,
>)
    requires
        field_at(fields, path) is Some,
    ensures
        path.len() > 0,
        siblings.len() == path.len(),
        siblings.last() == fields,
        forall|k: int| 0 <= k < path.len() ==> path[k] < (#[trigger] siblings[k]).len(),
        forall|k: int, above: int|
            #![trigger siblings[k], siblings[above]]
            0 <= k < above == k + 1 < path.len() ==> children_of(
                siblings[above][path[above] as int],
            ) == Some(siblings[k]),
        field_at(fields, path) == Some(siblings[0][path[0] as int]),
    decreases path.len(),
{
    if path.len() == 1 {
        seq![fields]
    } else {
        let upper = path.drop_first();
        let uppers = field_has_path(fields, upper);
        let parent = field_at(fields, upper)->Some_0;
        let siblings = seq![children_of(parent)->Some_0] + uppers;
        assert forall|k: int| 0 <= k < path.len() implies path[k] < (
        #[trigger] siblings[k]).len() by {
            if k > 0 {
                assert(siblings[k] == uppers[k - 1]);
                assert(upper[k - 1] < uppers[k - 1].len());
            }
        }
        assert forall|k: int, above: int|
            #![trigger siblings[k], siblings[above]]
            0 <= k < above == k + 1 < path.len() implies children_of(
                siblings[above][path[above] as int],
            ) == Some(siblings[k]) by {
            if k > 0 {
                assert(siblings[k] == uppers[k - 1]);
                assert(siblings[k + 1] == uppers[k]);
            } else {
                assert(siblings[1] == uppers[0]);
            }
        }
        siblings
    }
}

/// The tree of a field says of it what Arrow does: its name, the text under
/// `PARQUET:field_id` in its metadata, and whether it is a struct; a struct has one
/// child for each of its fields, in order, and every child is a tree of that field.
pub proof fn tree_says(node: Arc<FieldNode>, model: FieldModel)
    requires
        node.mirrors(model),
    ensures
        crate::outside::field_model(*node.arrow) == model,
        node.name@ == model.name,
        match node.field_id {
            Some(text) => model.metadata.contains_pair("PARQUET:field_id"@, text@),
            None => !model.metadata.contains_key("PARQUET:field_id"@),
        },
        match model.data_type {
            TypeModel::Struct(fields) => node.children matches Some(children) && children@.len()
                == fields.len() && forall|i: int|
                #![trigger children@[i]]
                0 <= i < fields.len() ==> children@[i].mirrors(fields[i]),
            _ => node.children is None,
        },
{
}

/// Trees of fields: one for each field, in order.
pub proof fn trees_in_order(trees: Seq<Arc<FieldNode>>, fields: Seq<FieldModel>)
    ensures
        trees_mirror(trees, fields) <==> {
            &&& trees.len() == fields.len()
            &&& forall|i: int|
                #![trigger trees[i]]
                0 <= i < trees.len() ==> trees[i].mirrors(fields[i])
        },
{
}

/// Every path through the struct types of a schema leads to the tree of the field
/// there.
pub proof fn schema_path_in_tree(
    trees: Seq<Arc<FieldNode>>,
    fields: Seq<FieldModel>,
    path: Seq<usize>,
    siblings: Seq<Seq<FieldModel>>,
)
    requires
        trees_mirror(trees, fields),
        path.len() > 0,
        siblings.len() == path.len(),
        siblings.last() == fields,
        forall|k: int| 0 <= k < path.len() ==> path[k] < (#[trigger] siblings[k]).len(),
        forall|k: int, above: int|
            #![trigger siblings[k], siblings[above]]
            0 <= k < above == k + 1 < path.len() ==> siblings[above][path[above] as int].data_type
                == TypeModel::Struct(siblings[k]),
    ensures
        field_at(trees, path) is Some,
        field_at(trees, path)->Some_0.mirrors(siblings[0][path[0] as int]),
        model_of(field_at(trees, path)->Some_0) == siblings[0][path[0] as int],
    decreases path.len(),
{
    assert(path[0] < siblings[0].len());
    let position = path[0] as int;
    if path.len() == 1 {
        assert(trees[position].mirrors(fields[position]));
    } else {
        let upper = path.drop_first();
        let uppers = siblings.drop_first();
        assert forall|k: int| 0 <= k < upper.len() implies upper[k] < (
        #[trigger] uppers[k]).len() by {
            assert(path[k + 1] < siblings[k + 1].len());
        }
        assert forall|k: int, above: int|
            #![trigger uppers[k], uppers[above]]
            0 <= k < above == k + 1 < upper.len() implies uppers[above][upper[
            above] as int].data_type == TypeModel::Struct(uppers[k]) by {
            assert(siblings[k + 1] == uppers[k]);
            assert(siblings[above + 1] == uppers[above]);
        }
        schema_path_in_tree(trees, fields, upper, uppers);
        assert(siblings[1][path[1] as int].data_type == TypeModel::Struct(siblings[0]));
        let parent = field_at(trees, upper)->Some_0;
        let children = children_of(parent)->Some_0;
        assert(children[position].mirrors(siblings[0][position]));
    }
}

/// Every path in the trees of a schema's fields is one through the struct types of
/// the schema.
pub proof fn tree_path_in_schema(
    trees: Seq<Arc<FieldNode>>,
    fields: Seq<FieldModel>,
    path: Seq<usize>,
) -> (siblings: Seq<Seq<FieldModel>>)
    requires
        trees_mirror(trees, fields),
        field_at(trees, path) is Some,
    ensures
        path.len() > 0,
        siblings.len() == path.len(),
        siblings.last() == fields,
        forall|k: int| 0 <= k < path.len() ==> path[k] < (#[trigger] siblings[k]).len(),
        forall|k: int, above: int|
            #![trigger siblings[k], siblings[above]]
            0 <= k < above == k + 1 < path.len() ==> siblings[above][path[above] as int].data_type
                == TypeModel::Struct(siblings[k]),
        field_at(trees, path)->Some_0.mirrors(siblings[0][path[0] as int]),
    decreases path.len(),
{
    let position = path[0] as int;
    if path.len() == 1 {
        assert(trees[position].mirrors(fields[position]));
        seq![fields]
    } else {
        let upper = path.drop_first();
        let uppers = tree_path_in_schema(trees, fields, upper);
        let parent = field_at(trees, upper)->Some_0;
        let model = uppers[0][upper[0] as int];
        let children = children_of(parent)->Some_0;
        let siblings = seq![model.data_type->Struct_0] + uppers;
        assert(children[position].mirrors(model.data_type->Struct_0[position]));
        assert forall|k: int| 0 <= k < path.len() implies path[k] < (
        #[trigger] siblings[k]).len() by {
            if k > 0 {
                assert(siblings[k] == uppers[k - 1]);
                assert(upper[k - 1] < uppers[k - 1].len());
            }
        }
        assert forall|k: int, above: int|
            #![trigger siblings[k], siblings[above]]
            0 <= k < above == k + 1 < path.len() implies siblings[above][path[
            above] as int].data_type == TypeModel::Struct(siblings[k]) by {
            if k > 0 {
                assert(siblings[k] == uppers[k - 1]);
                assert(siblings[k + 1] == uppers[k]);
            } else {
                assert(siblings[1] == uppers[0]);
            }
        }
        siblings
    }
}

/// A path through struct columns leads to the column at its first position, and no
/// position on it is out of bounds.
pub proof fn path_leads_to_column(
    columns: Seq<ColumnModel>,
    path: Seq<usize>,
    siblings: Seq<Seq<ColumnModel>>,
)
    requires
        path.len() > 0,
        siblings.len() == path.len(),
        siblings.last() == columns,
        forall|k: int| 0 <= k < path.len() ==> path[k] < (#[trigger] siblings[k]).len(),
        forall|k: int, above: int|
            #![trigger siblings[k], siblings[above]]
            0 <= k < above == k + 1 < path.len() ==> siblings[above][path[above] as int].children
                == Some(siblings[k]),
    ensures
        column_at(columns, path) == Some(siblings[0][path[0] as int]),
        path_in_bounds(columns, path),
        forall|row: int| #[trigger]
            row_visible(columns, path, row) <==> forall|k: int|
                0 <= k < path.len() ==> (#[trigger] siblings[k])[path[k] as int].rows[row] is Some,
    decreases path.len(),
{
    assert(path[0] < siblings[0].len());
    let upper = path.drop_first();
    let uppers = siblings.drop_first();
    if path.len() > 1 {
        assert forall|k: int| 0 <= k < upper.len() implies upper[k] < (
        #[trigger] uppers[k]).len() by {
            assert(path[k + 1] < siblings[k + 1].len());
        }
        assert forall|k: int, above: int|
            #![trigger uppers[k], uppers[above]]
            0 <= k < above == k + 1 < upper.len() implies uppers[above][upper[
            above] as int].children == Some(uppers[k]) by {
            assert(siblings[k + 1] == uppers[k]);
            assert(siblings[above + 1] == uppers[above]);
        }
        path_leads_to_column(columns, upper, uppers);
        assert(siblings[1][path[1] as int].children == Some(siblings[0]));
    }
    assert forall|row: int| #[trigger] row_visible(columns, path, row) <==> forall|k: int|
        0 <= k < path.len() ==> (#[trigger] siblings[k])[path[k] as int].rows[row] is Some by {
        if row_visible(columns, path, row) {
            assert forall|k: int| 0 <= k < path.len() implies (
            #[trigger] siblings[k])[path[k] as int].rows[row] is Some by {
                if k > 0 {
                    assert(row_visible(columns, upper, row));
                    assert(uppers[k - 1][upper[k - 1] as int].rows[row] is Some);
                }
            }
        }
        if forall|k: int|
            0 <= k < path.len() ==> (#[trigger] siblings[k])[path[k] as int].rows[row] is Some {
            assert(siblings[0][path[0] as int].rows[row] is Some);
            if path.len() > 1 {
                assert forall|k: int| 0 <= k < upper.len() implies (
                #[trigger] uppers[k])[upper[k] as int].rows[row] is Some by {
                    assert(siblings[k + 1][path[k + 1] as int].rows[row] is Some);
                }
                assert(row_visible(columns, upper, row));
            }
        }
    }
}

/// A path that leads to a column is one through struct columns.
pub proof fn column_has_path(columns: Seq<ColumnModel>, path: Seq<usize>) -> (siblings: Seq<
    Seq<ColumnModel>,
>)
    requires
        column_at(columns, path) is Some,
    ensures
        path.len() > 0,
        siblings.len() == path.len(),
        siblings.last() == columns,
        forall|k: int| 0 <= k < path.len() ==> path[k] < (#[trigger] siblings[k]).len(),
        forall|k: int, above: int|
            #![trigger siblings[k], siblings[above]]
            0 <= k < above == k + 1 < path.len() ==> siblings[above][path[above] as int].children
                == Some(siblings[k]),
        column_at(columns, path) == Some(siblings[0][path[0] as int]),
    decreases path.len(),
{
    if path.len() == 1 {
        seq![columns]
    } else {
        let upper = path.drop_first();
        let uppers = column_has_path(columns, upper);
        let parent = column_at(columns, upper)->Some_0;
        let siblings = seq![parent.children->Some_0] + uppers;
        assert forall|k: int| 0 <= k < path.len() implies path[k] < (
        #[trigger] siblings[k]).len() by {
            if k > 0 {
                assert(siblings[k] == uppers[k - 1]);
                assert(upper[k - 1] < uppers[k - 1].len());
            }
        }
        assert forall|k: int, above: int|
            #![trigger siblings[k], siblings[above]]
            0 <= k < above == k + 1 < path.len() implies siblings[above][path[
            above] as int].children == Some(siblings[k]) by {
            if k > 0 {
                assert(siblings[k] == uppers[k - 1]);
                assert(siblings[k + 1] == uppers[k]);
            } else {
                assert(siblings[1] == uppers[0]);
            }
        }
        siblings
    }
}

/// What projecting along a path through struct columns gives: the column at the end,
/// each of whose rows holds what it held if no column on the path is null there, and
/// is null otherwise; or, only if Arrow does not build that, the error that says so.
pub proof fn projection_along_path(
    columns: Seq<ColumnModel>,
    path: Seq<usize>,
    siblings: Seq<Seq<ColumnModel>>,
)
    requires
        path.len() > 0,
        siblings.len() == path.len(),
        siblings.last() == columns,
        forall|k: int| 0 <= k < path.len() ==> path[k] < (#[trigger] siblings[k]).len(),
        forall|k: int, above: int|
            #![trigger siblings[k], siblings[above]]
            0 <= k < above == k + 1 < path.len() ==> siblings[above][path[above] as int].children
                == Some(siblings[k]),
    ensures
        ({
            let leaf = siblings[0][path[0] as int];
            let bits = Seq::new(
                leaf.rows.len(),
                |row: int|
                    forall|k: int|
                        0 <= k < path.len() ==> (
                        #[trigger] siblings[k])[path[k] as int].rows[row] is Some,
            );
            match projection(columns, path) {
                Ok(column) => {
                    &&& builds(leaf, bits)
                    &&& column.data_type == leaf.data_type
                    &&& column.children == leaf.children
                    &&& column.rebuilds == leaf.rebuilds
                    &&& column.marks_nulls <==> bits.contains(false)
                    &&& column.rows.len() == leaf.rows.len()
                    &&& forall|row: int|
                        #![trigger column.rows[row]]
                        0 <= row < leaf.rows.len() ==> column.rows[row] == if bits[row] {
                            leaf.rows[row]
                        } else {
                            None
                        }
                },
                Err(error) => {
                    &&& !builds(leaf, bits)
                    &&& error.kind == ErrorKind::Unexpected
                    &&& error.message == "Arrow Schema Error"@
                    &&& error.context.len() == 0
                    &&& error.source == Some(SourceKind::Arrow)
                },
            }
        }),
{
    path_leads_to_column(columns, path, siblings);
    let leaf = siblings[0][path[0] as int];
    let bits = Seq::new(
        leaf.rows.len(),
        |row: int|
            forall|k: int|
                0 <= k < path.len() ==> (#[trigger] siblings[k])[path[k] as int].rows[row] is Some,
    );
    assert forall|row: int| 0 <= row < leaf.rows.len() implies #[trigger] bits[row]
        == visible_bits(columns, path)[row] by {
        assert(row_visible(columns, path, row) == bits[row]);
    }
    assert(bits =~= visible_bits(columns, path));
}

/// Projecting along a path that goes on below a column which is no struct column fails
/// with the error that says so.
pub proof fn projection_below_no_struct(columns: Seq<ColumnModel>, path: Seq<usize>, skipped: int)
    requires
        0 < skipped < path.len(),
        column_at(columns, path.skip(skipped)) matches Some(column) && column.children is None,
    ensures
        path_in_bounds(columns, path.skip(skipped)) ==> path_in_bounds(columns, path),
        projection(columns, path) matches Err(error) && error.kind == ErrorKind::Unexpected
            && error.message == "Cannot convert Array to StructArray"@ && error.context.len() == 0
            && error.source is None,
{
    lemma_ends_below(columns, path, skipped);
}

proof fn lemma_ends_below(columns: Seq<ColumnModel>, path: Seq<usize>, skipped: int)
    requires
        0 < skipped < path.len(),
        column_at(columns, path.skip(skipped)) matches Some(column) && column.children is None,
    ensures
        column_at(columns, path) is None,
        path_in_bounds(columns, path.skip(skipped)) ==> path_in_bounds(columns, path),
    decreases skipped,
{
    let upper = path.drop_first();
    if skipped == 1 {
        assert(path.skip(1) =~= upper);
    } else {
        assert(path.skip(skipped) =~= upper.skip(skipped - 1));
        lemma_ends_below(columns, upper, skipped - 1);
    }
}

/// A path is in bounds exactly if it leads to a column, or to a column that is no struct
/// column before it ends. It is out of bounds exactly if it is empty, or one of its
/// positions is not below the number of columns it counts in.
pub proof fn bounds_of_path(columns: Seq<ColumnModel>, path: Seq<usize>)
    ensures
        path_in_bounds(columns, path) <==> {
            ||| column_at(columns, path) is Some
            ||| exists|k: int|
                0 < k < path.len() && (column_at(columns, #[trigger] path.skip(k)) matches Some(
                    column,
                ) && column.children is None)
        },
        !path_in_bounds(columns, path) <==> {
            ||| path.len() == 0
            ||| path.last() >= columns.len()
            ||| exists|k: int|
                0 < k < path.len() && (column_at(columns, #[trigger] path.skip(k)) matches Some(
                    column,
                ) && column.children matches Some(children) && path[k - 1] >= children.len())
        },
    decreases path.len(),
{
    if path.len() == 1 {
        assert(path.last() == path[0]);
    } else if path.len() > 1 {
        let upper = path.drop_first();
        bounds_of_path(columns, upper);
        assert(upper.last() == path.last());
        assert(path.skip(1) =~= upper);
        assert forall|k: int| 0 < k < upper.len() implies #[trigger] upper.skip(k) == path.skip(
            k + 1,
        ) by {
            assert(upper.skip(k) =~= path.skip(k + 1));
        }
        assert forall|k: int| 1 < k < path.len() implies #[trigger] path.skip(k) == upper.skip(
            k - 1,
        ) by {
            assert(upper.skip(k - 1) =~= path.skip(k));
        }
        if exists|k: int|
            0 < k < upper.len() && (column_at(columns, #[trigger] upper.skip(k)) matches Some(
                column,
            ) && column.children is None) {
            let k = choose|k: int|
                0 < k < upper.len() && (column_at(columns, #[trigger] upper.skip(k)) matches Some(
                    column,
                ) && column.children is None);
            assert(path.skip(k + 1) == upper.skip(k));
            lemma_ends_below(columns, path, k + 1);
        }
        if exists|k: int|
            0 < k < path.len() && (column_at(columns, #[trigger] path.skip(k)) matches Some(column)
                && column.children is None) {
            let k = choose|k: int|
                0 < k < path.len() && (column_at(columns, #[trigger] path.skip(k)) matches Some(
                    column,
                ) && column.children is None);
            if k > 1 {
                assert(path.skip(k) == upper.skip(k - 1));
                lemma_ends_below(columns, upper, k - 1);
            }
        }
        if exists|k: int|
            0 < k < upper.len() && (column_at(columns, #[trigger] upper.skip(k)) matches Some(
                column,
            ) && column.children matches Some(children) && upper[k - 1] >= children.len()) {
            let k = choose|k: int|
                0 < k < upper.len() && (column_at(columns, #[trigger] upper.skip(k)) matches Some(
                    column,
                ) && column.children matches Some(children) && upper[k - 1] >= children.len());
            assert(path.skip(k + 1) == upper.skip(k));
            assert(path[k + 1 - 1] == upper[k - 1]);
        }
        if exists|k: int|
            0 < k < path.len() && (column_at(columns, #[trigger] path.skip(k)) matches Some(column)
                && column.children matches Some(children) && path[k - 1] >= children.len()) {
            let k = choose|k: int|
                0 < k < path.len() && (column_at(columns, #[trigger] path.skip(k)) matches Some(
                    column,
                ) && column.children matches Some(children) && path[k - 1] >= children.len());
            if k > 1 {
                assert(path.skip(k) == upper.skip(k - 1));
                assert(path[k - 1] == upper[k - 1 - 1]);
            }
        }
    }
}

/// Columns can be projected along paths without going out of bounds exactly if each
/// path is in bounds for which those before it can all be projected.
pub proof fn bounds_of_paths(columns: Seq<ColumnModel>, paths: Seq<Seq<usize>>)
    ensures
        paths_in_bounds(columns, paths) <==> forall|k: int|
            #![trigger paths[k]]
            0 <= k < paths.len() && (forall|j: int|
                #![trigger paths[j]]
                0 <= j < k ==> projection(columns, paths[j]) is Ok) ==> path_in_bounds(
                columns,
                paths[k],
            ),
{
    assert forall|k: int| 0 <= k <= paths.len() implies (#[trigger] projections(
        columns,
        paths.take(k),
    ) is Ok <==> forall|j: int|
        #![trigger paths[j]]
        0 <= j < k ==> projection(columns, paths[j]) is Ok) by {
        lemma_front_projects(columns, paths, k);
    }
    if paths_in_bounds(columns, paths) {
        assert forall|k: int|
            #![trigger paths[k]]
            0 <= k < paths.len() && (forall|j: int|
                #![trigger paths[j]]
                0 <= j < k ==> projection(columns, paths[j]) is Ok) implies path_in_bounds(
            columns,
            paths[k],
        ) by {
            assert(projections(columns, paths.take(k)) is Ok);
        }
    }
}

proof fn lemma_front_projects(columns: Seq<ColumnModel>, paths: Seq<Seq<usize>>, k: int)
    requires
        0 <= k <= paths.len(),
    ensures
        projections(columns, paths.take(k)) is Ok <==> forall|j: int|
            #![trigger paths[j]]
            0 <= j < k ==> projection(columns, paths[j]) is Ok,
    decreases k,
{
    if k == 0 {
        assert(paths.take(0) =~= Seq::empty());
    } else {
        lemma_front_projects(columns, paths, k - 1);
        assert(paths.take(k).drop_last() =~= paths.take(k - 1));
        assert(paths.take(k).last() == paths[k - 1]);
    }
}

} // verus!
