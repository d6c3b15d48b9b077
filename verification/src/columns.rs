//! What it means to take a column, nested or not, out of a list of columns.

use vstd::prelude::*;

use crate::contents::{builds, masked, ColumnModel};
use crate::error::{ErrorKind, ErrorView, SourceKind};

verus! {

/// The column that a path leads to: the last position is that of a top-level
/// column, and each one before it that of a column in the struct column reached
/// so far. There is none if a column on the way is no struct column.
pub open spec fn column_at(columns: Seq<ColumnModel>, path: Seq<usize>) -> Option<ColumnModel>
    decreases path.len(),
{
    if path.len() == 0 {
        None
    } else if path.len() == 1 {
        if path[0] < columns.len() {
            Some(columns[path[0] as int])
        } else {
            None
        }
    } else {
        match column_at(columns, path.drop_first()) {
            Some(parent) => match parent.children {
                Some(children) => if path[0] < children.len() {
                    Some(children[path[0] as int])
                } else {
                    None
                },
                None => None,
            },
            None => None,
        }
    }
}

/// No position on the path is behind the end of the columns it counts in.
pub open spec fn path_in_bounds(columns: Seq<ColumnModel>, path: Seq<usize>) -> bool
    decreases path.len(),
{
    if path.len() == 0 {
        false
    } else if path.len() == 1 {
        path[0] < columns.len()
    } else {
        &&& path_in_bounds(columns, path.drop_first())
        &&& match column_at(columns, path.drop_first()) {
            Some(parent) => parent.children matches Some(children) ==> path[0] < children.len(),
            None => true,
        }
    }
}

/// A row has a value in every column on the path.
pub open spec fn row_visible(columns: Seq<ColumnModel>, path: Seq<usize>, row: int) -> bool
    decreases path.len(),
{
    if path.len() == 0 {
        true
    } else {
        &&& column_at(columns, path) matches Some(column) && column.rows[row] is Some
        &&& path.len() > 1 ==> row_visible(columns, path.drop_first(), row)
    }
}

/// Which rows of the column that a path leads to have a value in every column on
/// the path.
pub open spec fn visible_bits(columns: Seq<ColumnModel>, path: Seq<usize>) -> Seq<bool> {
    let leaf = column_at(columns, path)->Some_0;
    Seq::new(leaf.rows.len(), |row: int| row_visible(columns, path, row))
}

/// The error for a path that leads through a column that is no struct column.
pub open spec fn not_a_struct() -> ErrorView {
    ErrorView::plain(ErrorKind::Unexpected, "Cannot convert Array to StructArray"@)
}

/// The error for a column that Arrow does not build with its new null buffer.
pub open spec fn column_refused() -> ErrorView {
    ErrorView::plain(ErrorKind::Unexpected, "Arrow Schema Error"@).with_source(SourceKind::Arrow)
}

/// The projection of `columns` along `path`: the column that the path leads to,
/// with every row null that is null in any column on the way; an error if a column
/// on the way is no struct column, or if Arrow refuses to build the outcome.
pub open spec fn projection(columns: Seq<ColumnModel>, path: Seq<usize>) -> Result<
    ColumnModel,
    ErrorView,
> {
    match column_at(columns, path) {
        Some(leaf) => if builds(leaf, visible_bits(columns, path)) {
            Ok(masked(leaf, visible_bits(columns, path)))
        } else {
            Err(column_refused())
        },
        None => Err(not_a_struct()),
    }
}

/// The projections along the paths, in order, or the error of the first path that
/// has none.
pub open spec fn projections(columns: Seq<ColumnModel>, paths: Seq<Seq<usize>>) -> Result<
    Seq<ColumnModel>,
    ErrorView,
>
    decreases paths.len(),
{
    if paths.len() == 0 {
        Ok(Seq::empty())
    } else {
        match projections(columns, paths.drop_last()) {
            Ok(before) => match projection(columns, paths.last()) {
                Ok(column) => Ok(before.push(column)),
                Err(error) => Err(error),
            },
            Err(error) => Err(error),
        }
    }
}

/// Every path is in bounds for as long as those before it have projections.
pub open spec fn paths_in_bounds(columns: Seq<ColumnModel>, paths: Seq<Seq<usize>>) -> bool {
    forall|k: int|
        #![trigger paths[k]]
        0 <= k < paths.len() && projections(columns, paths.take(k)) is Ok ==> path_in_bounds(
            columns,
            paths[k],
        )
}

/// Either each path has its projection, and all are given in order; or the error is
/// that of the first path that has none.
pub proof fn projections_in_order(columns: Seq<ColumnModel>, paths: Seq<Seq<usize>>)
    ensures
        match projections(columns, paths) {
            Ok(projected) => {
                &&& projected.len() == paths.len()
                &&& forall|k: int|
                    #![trigger paths[k]]
                    #![trigger projected[k]]
                    0 <= k < paths.len() ==> projection(columns, paths[k]) == Ok::<
                        ColumnModel,
                        ErrorView,
                    >(projected[k])
            },
            Err(error) => exists|k: int|
                #![trigger paths[k]]
                {
                    &&& 0 <= k < paths.len()
                    &&& forall|j: int|
                        #![trigger paths[j]]
                        0 <= j < k ==> projection(columns, paths[j]) is Ok
                    &&& projection(columns, paths[k]) == Err::<ColumnModel, ErrorView>(error)
                },
        },
    decreases paths.len(),
{
    if paths.len() > 0 {
        let front = paths.drop_last();
        projections_in_order(columns, front);
        assert(paths[paths.len() - 1] == paths.last());
        match projections(columns, front) {
            Err(error) => {
                let k = choose|k: int|
                    #![trigger front[k]]
                    {
                        &&& 0 <= k < front.len()
                        &&& forall|j: int|
                            #![trigger front[j]]
                            0 <= j < k ==> projection(columns, front[j]) is Ok
                        &&& projection(columns, front[k]) == Err::<ColumnModel, ErrorView>(error)
                    };
                assert(paths[k] == front[k]);
                assert forall|j: int| #![trigger paths[j]] 0 <= j < k implies projection(
                    columns,
                    paths[j],
                ) is Ok by {
                    assert(front[j] == paths[j]);
                }
            },
            Ok(before) => {
                assert forall|j: int| #![trigger paths[j]] 0 <= j < front.len() implies projection(
                    columns,
                    paths[j],
                ) == Ok::<ColumnModel, ErrorView>(before[j]) by {
                    assert(front[j] == paths[j]);
                }
            },
        }
    }
}

/// Once one of several projections has failed, its error stays, whatever paths
/// follow.
pub(crate) proof fn lemma_projection_error_stays(
    columns: Seq<ColumnModel>,
    paths: Seq<Seq<usize>>,
    done: int,
)
    requires
        0 <= done <= paths.len(),
        projections(columns, paths.take(done)) is Err,
    ensures
        projections(columns, paths) == projections(columns, paths.take(done)),
    decreases paths.len() - done,
{
    if done == paths.len() {
        assert(paths.take(done) =~= paths);
    } else {
        assert(paths.take(done + 1).drop_last() =~= paths.take(done));
        lemma_projection_error_stays(columns, paths, done + 1);
    }
}

/// Projecting along more paths appends: it succeeds exactly if it does for both
/// parts, and fails with the error of the first part that fails.
pub proof fn projections_append(
    columns: Seq<ColumnModel>,
    paths: Seq<Seq<usize>>,
    more: Seq<Seq<usize>>,
)
    ensures
        projections(columns, paths + more) == match (
            projections(columns, paths),
            projections(columns, more),
        ) {
            (Ok(projected), Ok(others)) => Ok(projected + others),
            (Err(error), _) => Err(error),
            (_, Err(error)) => Err(error),
        },
    decreases more.len(),
{
    if more.len() == 0 {
        assert(paths + more =~= paths);
        if let Ok(projected) = projections(columns, paths) {
            assert(projected + Seq::<ColumnModel>::empty() =~= projected);
        }
    } else {
        projections_append(columns, paths, more.drop_last());
        assert((paths + more).drop_last() =~= paths + more.drop_last());
        assert((paths + more).last() == more.last());
        match (projections(columns, paths), projections(columns, more)) {
            (Ok(projected), Ok(others)) => {
                assert(projected + others =~= (projected + others.drop_last()).push(others.last()));
                assert(projections(columns, more.drop_last())->Ok_0 =~= others.drop_last());
            },
            _ => {},
        }
    }
}

proof fn lemma_column_in_front(columns: Seq<ColumnModel>, extra: Seq<ColumnModel>, path: Seq<usize>)
    requires
        column_at(columns, path) is Some,
    ensures
        column_at(columns + extra, path) == column_at(columns, path),
        forall|row: int| #[trigger]
            row_visible(columns + extra, path, row) == row_visible(columns, path, row),
    decreases path.len(),
{
    let upper = path.drop_first();
    if path.len() > 1 {
        lemma_column_in_front(columns, extra, upper);
    }
    assert forall|row: int| #[trigger]
        row_visible(columns + extra, path, row) == row_visible(columns, path, row) by {
        assert(path.len() > 1 ==> row_visible(columns + extra, upper, row) == row_visible(
            columns,
            upper,
            row,
        ));
    }
}

/// Columns are taken by position: what lies behind the columns that are projected
/// does not matter.
pub proof fn extra_columns_ignored(
    columns: Seq<ColumnModel>,
    extra: Seq<ColumnModel>,
    paths: Seq<Seq<usize>>,
)
    requires
        projections(columns, paths) is Ok,
    ensures
        projections(columns + extra, paths) == projections(columns, paths),
    decreases paths.len(),
{
    if paths.len() > 0 {
        extra_columns_ignored(columns, extra, paths.drop_last());
        let path = paths.last();
        lemma_column_in_front(columns, extra, path);
        assert(visible_bits(columns + extra, path) =~= visible_bits(columns, path));
    }
}

/// Where there is no column further up, there is none here, and no position is
/// out of bounds.
pub(crate) proof fn lemma_path_ends(columns: Seq<ColumnModel>, path: Seq<usize>, skipped: int)
    requires
        0 <= skipped < path.len(),
        path_in_bounds(columns, path.skip(skipped)),
        column_at(columns, path.skip(skipped)) is None,
    ensures
        path_in_bounds(columns, path),
        column_at(columns, path) is None,
    decreases skipped,
{
    if skipped == 0 {
        assert(path.skip(0) =~= path);
    } else {
        let upper = path.drop_first();
        assert(path.skip(skipped) =~= upper.skip(skipped - 1));
        lemma_path_ends(columns, upper, skipped - 1);
    }
}

/// What is in bounds from here is in bounds from any column further up, and
/// where there is no column further up there is none here.
pub(crate) proof fn lemma_path_prefix(columns: Seq<ColumnModel>, path: Seq<usize>, skipped: int)
    requires
        0 <= skipped < path.len(),
        path_in_bounds(columns, path),
    ensures
        path_in_bounds(columns, path.skip(skipped)),
        column_at(columns, path.skip(skipped)) is None ==> column_at(columns, path) is None,
    decreases skipped,
{
    if skipped == 0 {
        assert(path.skip(0) =~= path);
    } else {
        let upper = path.drop_first();
        assert(path.skip(skipped) =~= upper.skip(skipped - 1));
        lemma_path_prefix(columns, upper, skipped - 1);
    }
}

} // verus!
