//! What it means to look fields up in a schema, by id and by name, and what the
//! two searches promise.
//!
//! A path to a field lists positions from the field upwards: first its own
//! position among its siblings, then its parent's, and last the position of a
//! top-level field.

use std::sync::Arc;

use vstd::prelude::*;

use crate::error::{Error, ErrorKind, ErrorView};
use crate::schema::{answer_view, metadata_id, FieldNode};
use crate::text::{decimal_text, join_dots, join_splits_back, split_dots};

verus! {

/// How a search ends.
#[verifier::ext_equal]
pub enum Outcome {
    /// At a field, which the path leads to.
    Found { path: Seq<usize>, field: Arc<FieldNode> },
    /// Without a field.
    Missing,
    /// With an error.
    Failed(ErrorView),
}

impl Outcome {
    /// The outcome as seen from one level up, where the searched fields belong
    /// to the field at `position`.
    pub open spec fn below(self, position: usize) -> Outcome {
        match self {
            Outcome::Found { path, field } => Outcome::Found { path: path.push(position), field },
            other => other,
        }
    }
}

/// The outcome that a result reports, with the path that came with it.
pub open spec fn outcome_of(
    result: Result<Option<Arc<FieldNode>>, Error>,
    path: Seq<usize>,
) -> Outcome {
    match result {
        Ok(Some(field)) => Outcome::Found { path, field },
        Ok(None) => Outcome::Missing,
        Err(error) => Outcome::Failed(error@),
    }
}

/// The children of a field that is a struct.
pub open spec fn children_of(field: Arc<FieldNode>) -> Option<Seq<Arc<FieldNode>>> {
    match field.children {
        Some(children) => Some(children@),
        None => None,
    }
}

/// The field that a path leads to.
pub open spec fn field_at(fields: Seq<Arc<FieldNode>>, path: Seq<usize>) -> Option<
    Arc<FieldNode>,
>
    decreases path.len(),
{
    if path.len() == 0 {
        None
    } else {
        let siblings = if path.len() == 1 {
            Some(fields)
        } else {
            match field_at(fields, path.drop_first()) {
                Some(parent) => children_of(parent),
                None => None,
            }
        };
        match siblings {
            Some(siblings) => if path[0] < siblings.len() {
                Some(siblings[path[0] as int])
            } else {
                None
            },
            None => None,
        }
    }
}

/// An id search may end like this. From position `from` on, each field is asked
/// for its id by `fetch`. A field that answers with `target` is found, and an
/// error ends the search. Any other field is passed over; if it is a struct and
/// `searchable` says so, its own fields are searched first. What the two
/// functions answer may differ from call to call.
pub open spec fn may_find<F1, F2>(
    fields: Seq<Arc<FieldNode>>,
    from: int,
    target: i64,
    fetch: F1,
    searchable: F2,
    outcome: Outcome,
) -> bool where F1: Fn(&FieldNode) -> Result<Option<i64>, Error>, F2: Fn(&FieldNode) -> bool
    decreases fields, fields.len() - from,
{
    if from < 0 || from >= fields.len() {
        outcome == Outcome::Missing
    } else {
        let field = fields[from];
        exists|answer: Result<Option<i64>, Error>|
            #[trigger] call_ensures(fetch, (&*field,), answer) && match answer {
                Err(error) => outcome == Outcome::Failed(error@),
                Ok(id) => if id == Some(target) {
                    outcome == (Outcome::Found { path: seq![from as usize], field })
                } else {
                    match field.children {
                        None => may_find(fields, from + 1, target, fetch, searchable, outcome),
                        Some(children) => exists|enter: bool|
                            #[trigger] call_ensures(searchable, (&*field,), enter) && if enter {
                                exists|inner: Outcome|
                                    may_find(children@, 0, target, fetch, searchable, inner) && if (
                                    #[trigger] inner.below(from as usize)) is Missing {
                                        may_find(
                                            fields,
                                            from + 1,
                                            target,
                                            fetch,
                                            searchable,
                                            outcome,
                                        )
                                    } else {
                                        outcome == inner.below(from as usize)
                                    }
                            } else {
                                may_find(fields, from + 1, target, fetch, searchable, outcome)
                            },
                    }
                },
            }
    }
}

/// How an id search ends if what a field answers depends on the field alone.
pub open spec fn find_by_id(
    fields: Seq<Arc<FieldNode>>,
    from: int,
    target: i64,
    ids: spec_fn(FieldNode) -> Result<Option<i64>, ErrorView>,
    enters: spec_fn(FieldNode) -> bool,
) -> Outcome
    decreases fields, fields.len() - from,
{
    if from < 0 || from >= fields.len() {
        Outcome::Missing
    } else {
        let field = fields[from];
        match ids(*field) {
            Err(error) => Outcome::Failed(error),
            Ok(id) => if id == Some(target) {
                Outcome::Found { path: seq![from as usize], field }
            } else {
                let inner = match field.children {
                    Some(children) => if enters(*field) {
                        find_by_id(children@, 0, target, ids, enters)
                    } else {
                        Outcome::Missing
                    },
                    None => Outcome::Missing,
                };
                if inner is Missing {
                    find_by_id(fields, from + 1, target, ids, enters)
                } else {
                    inner.below(from as usize)
                }
            },
        }
    }
}

/// `fetch` answers for each field as `ids` says.
pub open spec fn answers_as<F1>(
    fetch: F1,
    ids: spec_fn(FieldNode) -> Result<Option<i64>, ErrorView>,
) -> bool where F1: Fn(&FieldNode) -> Result<Option<i64>, Error> {
    forall|field: &FieldNode, answer: Result<Option<i64>, Error>|
        #[trigger] call_ensures(fetch, (field,), answer) ==> answer_view(answer) == ids(*field)
}

/// `searchable` lets the search enter the fields that `enters` says.
pub open spec fn enters_as<F2>(searchable: F2, enters: spec_fn(FieldNode) -> bool) -> bool where
    F2: Fn(&FieldNode) -> bool,
 {
    forall|field: &FieldNode, enter: bool|
        #[trigger] call_ensures(searchable, (field,), enter) ==> enter == enters(*field)
}

/// The position, at `from` or behind, of the first field of this name.
pub open spec fn first_named(
    fields: Seq<Arc<FieldNode>>,
    name: Seq<char>,
    from: int,
) -> Option<int>
    decreases fields.len() - from,
{
    if from < 0 || from >= fields.len() {
        None
    } else if fields[from].name@ == name {
        Some(from)
    } else {
        first_named(fields, name, from + 1)
    }
}

/// The error for a name that goes on behind a field that is no struct.
pub open spec fn through_non_struct(name: Seq<char>) -> ErrorView {
    ErrorView::plain(
        ErrorKind::Unexpected,
        "Cannot resolve nested field by name through non-struct field"@,
    ).with_context("field_name"@, name)
}

/// How a search for the field named `target`, and from there on for the names in
/// `rest`, one level down each, ends. At each level the first field of the name
/// is the one that counts.
pub open spec fn find_by_name(
    fields: Seq<Arc<FieldNode>>,
    target: Seq<char>,
    rest: Seq<Seq<char>>,
) -> Outcome
    decreases rest.len(),
{
    match first_named(fields, target, 0) {
        None => Outcome::Missing,
        Some(position) => {
            let field = fields[position];
            if rest.len() == 0 {
                Outcome::Found { path: seq![position as usize], field }
            } else {
                match field.children {
                    None => Outcome::Failed(through_non_struct(field.name@)),
                    Some(children) => find_by_name(children@, rest[0], rest.skip(1)).below(
                        position as usize,
                    ),
                }
            }
        },
    }
}

/// How a search for a dot-separated name ends.
pub open spec fn find_by_dotted_name(fields: Seq<Arc<FieldNode>>, name: Seq<char>) -> Outcome {
    let pieces = split_dots(name);
    find_by_name(fields, pieces[0], pieces.skip(1))
}

/// The error for a field id that no field has.
pub open spec fn id_not_found(id: i32) -> ErrorView {
    ErrorView::plain(ErrorKind::Unexpected, "Field not found"@).with_context(
        "field_id"@,
        decimal_text(id as int),
    )
}

/// The error for a name that no field has.
pub open spec fn name_not_found(name: Seq<char>) -> ErrorView {
    ErrorView::plain(ErrorKind::Unexpected, "Field not found"@).with_context("field_name"@, name)
}

/// The fields that several searches found, in order, each with its path; or the
/// error of the first one that found none.
pub type Hits = Result<Seq<(Seq<usize>, Arc<FieldNode>)>, ErrorView>;

/// The hits so far and the outcome of one more search.
pub open spec fn add_hit(hits: Hits, outcome: Outcome, not_found: ErrorView) -> Hits {
    match hits {
        Err(error) => Err(error),
        Ok(found) => match outcome {
            Outcome::Found { path, field } => Ok(found.push((path, field))),
            Outcome::Missing => Err(not_found),
            Outcome::Failed(error) => Err(error),
        },
    }
}

/// Searches for these ids, one after the other, may end with these hits.
pub open spec fn may_find_all<F1, F2>(
    fields: Seq<Arc<FieldNode>>,
    ids: Seq<i32>,
    fetch: F1,
    searchable: F2,
    hits: Hits,
) -> bool where F1: Fn(&FieldNode) -> Result<Option<i64>, Error>, F2: Fn(&FieldNode) -> bool
    decreases ids.len(),
{
    if ids.len() == 0 {
        hits == Hits::Ok(Seq::empty())
    } else {
        exists|before: Hits, outcome: Outcome|
            {
                &&& may_find_all(fields, ids.drop_last(), fetch, searchable, before)
                &&& before is Ok ==> may_find(
                    fields,
                    0,
                    ids.last() as i64,
                    fetch,
                    searchable,
                    outcome,
                )
                &&& hits == #[trigger] add_hit(before, outcome, id_not_found(ids.last()))
            }
    }
}

/// The hits of searches for these ids, if what a field answers depends on the
/// field alone.
pub open spec fn find_all_by_id(
    fields: Seq<Arc<FieldNode>>,
    targets: Seq<i32>,
    ids: spec_fn(FieldNode) -> Result<Option<i64>, ErrorView>,
    enters: spec_fn(FieldNode) -> bool,
) -> Hits
    decreases targets.len(),
{
    if targets.len() == 0 {
        Ok(Seq::empty())
    } else {
        add_hit(
            find_all_by_id(fields, targets.drop_last(), ids, enters),
            find_by_id(fields, 0, targets.last() as i64, ids, enters),
            id_not_found(targets.last()),
        )
    }
}

/// How a search for this id in the fields' metadata ends, all structs included.
pub open spec fn find_by_metadata_id(
    fields: Seq<Arc<FieldNode>>,
    from: int,
    target: i64,
) -> Outcome {
    find_by_id(
        fields,
        from,
        target,
        |field: FieldNode| metadata_id(field),
        |field: FieldNode| true,
    )
}

/// The hits of searches for these ids in the fields' metadata, all structs
/// included.
pub open spec fn find_all_by_metadata_id(fields: Seq<Arc<FieldNode>>, targets: Seq<i32>) -> Hits {
    find_all_by_id(
        fields,
        targets,
        |field: FieldNode| metadata_id(field),
        |field: FieldNode| true,
    )
}

/// The hits of searches for these dot-separated names.
pub open spec fn find_all_by_name(fields: Seq<Arc<FieldNode>>, names: Seq<Seq<char>>) -> Hits
    decreases names.len(),
{
    if names.len() == 0 {
        Ok(Seq::empty())
    } else {
        add_hit(
            find_all_by_name(fields, names.drop_last()),
            find_by_dotted_name(fields, names.last()),
            name_not_found(names.last()),
        )
    }
}

/// An id search over functions whose answers depend on the field alone has
/// exactly one outcome.
pub proof fn id_search_determined<F1, F2>(
    fields: Seq<Arc<FieldNode>>,
    from: int,
    target: i64,
    fetch: F1,
    searchable: F2,
    ids: spec_fn(FieldNode) -> Result<Option<i64>, ErrorView>,
    enters: spec_fn(FieldNode) -> bool,
    outcome: Outcome,
) where F1: Fn(&FieldNode) -> Result<Option<i64>, Error>, F2: Fn(&FieldNode) -> bool
    requires
        answers_as(fetch, ids),
        enters_as(searchable, enters),
        may_find(fields, from, target, fetch, searchable, outcome),
    ensures
        outcome == find_by_id(fields, from, target, ids, enters),
    decreases fields, fields.len() - from,
{
    if 0 <= from < fields.len() {
        let field = fields[from];
        if let Some(children) = children_of(field) {
            assert forall|inner: Outcome|
                #![trigger inner.below(from as usize)]
                may_find(children, 0, target, fetch, searchable, inner) implies inner
                == find_by_id(children, 0, target, ids, enters) by {
                id_search_determined(
                    children,
                    0,
                    target,
                    fetch,
                    searchable,
                    ids,
                    enters,
                    inner,
                );
            }
        }
        if may_find(fields, from + 1, target, fetch, searchable, outcome) {
            id_search_determined(
                fields,
                from + 1,
                target,
                fetch,
                searchable,
                ids,
                enters,
                outcome,
            );
        }
    }
}

pub(crate) proof fn lemma_children_len(field: Arc<FieldNode>)
    ensures
        children_of(field) matches Some(children) ==> children.len() <= usize::MAX,
{
    assert(field.children->Some_0.len() == field.children->Some_0@.len());
}

/// A path below a struct, put behind the struct's own position, leads to the
/// same field.
pub(crate) proof fn lemma_field_below(
    fields: Seq<Arc<FieldNode>>,
    position: usize,
    children: Seq<Arc<FieldNode>>,
    path: Seq<usize>,
)
    requires
        position < fields.len(),
        children_of(fields[position as int]) == Some(children),
        path.len() > 0,
    ensures
        field_at(fields, path.push(position)) == field_at(children, path),
    decreases path.len(),
{
    let whole = path.push(position);
    if path.len() == 1 {
        assert(whole.drop_first() =~= seq![position]);
        assert(field_at(fields, seq![position]) == Some(fields[position as int]));
    } else {
        assert(whole.drop_first() =~= path.drop_first().push(position));
        lemma_field_below(fields, position, children, path.drop_first());
    }
}

/// The path that comes with a field found by id leads to that field.
pub proof fn id_search_sound<F1, F2>(
    fields: Seq<Arc<FieldNode>>,
    from: int,
    target: i64,
    fetch: F1,
    searchable: F2,
    path: Seq<usize>,
    field: Arc<FieldNode>,
) where F1: Fn(&FieldNode) -> Result<Option<i64>, Error>, F2: Fn(&FieldNode) -> bool
    requires
        fields.len() <= usize::MAX,
        may_find(fields, from, target, fetch, searchable, Outcome::Found { path, field }),
    ensures
        path.len() > 0,
        field_at(fields, path) == Some(field),
    decreases fields, fields.len() - from,
{
    let outcome = Outcome::Found { path, field };
    if 0 <= from < fields.len() {
        let position = from as usize;
        let here = fields[from];
        lemma_children_len(here);
        if may_find(fields, from + 1, target, fetch, searchable, outcome) {
            id_search_sound(fields, from + 1, target, fetch, searchable, path, field);
        } else if let Some(children) = children_of(here) {
            assert forall|inner: Outcome|
                #![trigger inner.below(position)]
                may_find(children, 0, target, fetch, searchable, inner) && inner.below(position)
                    == outcome implies path.len() > 0 && field_at(fields, path) == Some(field) by {
                let inner_path = inner->path;
                id_search_sound(children, 0, target, fetch, searchable, inner_path, field);
                lemma_field_below(fields, position, children, inner_path);
            }
        }
    }
}

/// The first field of a name has the name, and none before it does.
pub(crate) proof fn lemma_first_named(fields: Seq<Arc<FieldNode>>, name: Seq<char>, from: int)
    requires
        0 <= from,
    ensures
        match first_named(fields, name, from) {
            Some(position) => {
                &&& from <= position < fields.len()
                &&& fields[position].name@ == name
                &&& forall|i: int| from <= i < position ==> (#[trigger] fields[i]).name@ != name
            },
            None => forall|i: int|
                from <= i < fields.len() ==> (#[trigger] fields[i]).name@ != name,
        },
    decreases fields.len() - from,
{
    if from < fields.len() && fields[from].name@ != name {
        lemma_first_named(fields, name, from + 1);
    }
}

/// The names along a path, from the top-level field down.
pub open spec fn path_names(fields: Seq<Arc<FieldNode>>, path: Seq<usize>) -> Seq<Seq<char>>
    decreases path.len(),
{
    if path.len() == 0 {
        Seq::empty()
    } else {
        path_names(fields, path.drop_first()).push(field_at(fields, path)->Some_0.name@)
    }
}

/// The fields among which a path ends.
pub open spec fn siblings_at(fields: Seq<Arc<FieldNode>>, path: Seq<usize>) -> Option<
    Seq<Arc<FieldNode>>,
> {
    if path.len() <= 1 {
        Some(fields)
    } else {
        match field_at(fields, path.drop_first()) {
            Some(parent) => children_of(parent),
            None => None,
        }
    }
}

/// No field before this position has the same name.
pub open spec fn first_of_name(fields: Seq<Arc<FieldNode>>, position: int) -> bool {
    forall|i: int| 0 <= i < position ==> (#[trigger] fields[i]).name@ != fields[position].name@
}

/// Every field on the path is the first of its name among its siblings.
pub open spec fn first_along(fields: Seq<Arc<FieldNode>>, path: Seq<usize>) -> bool
    decreases path.len(),
{
    if path.len() == 0 {
        true
    } else {
        &&& first_of_name(siblings_at(fields, path)->Some_0, path[0] as int)
        &&& first_along(fields, path.drop_first())
    }
}

pub(crate) proof fn lemma_names_below(
    fields: Seq<Arc<FieldNode>>,
    position: usize,
    children: Seq<Arc<FieldNode>>,
    path: Seq<usize>,
)
    requires
        position < fields.len(),
        children_of(fields[position as int]) == Some(children),
        first_of_name(fields, position as int),
    ensures
        path_names(fields, path.push(position)) == seq![fields[position as int].name@]
            + path_names(children, path),
        first_along(children, path) <==> first_along(fields, path.push(position)),
    decreases path.len(),
{
    let whole = path.push(position);
    if path.len() == 0 {
        assert(whole.drop_first() =~= Seq::empty());
        assert(path_names(fields, whole.drop_first()) =~= Seq::empty());
        assert(first_along(fields, whole.drop_first()));
        assert(path_names(fields, whole) =~= seq![fields[position as int].name@] + path_names(
            children,
            path,
        ));
    } else {
        assert(whole.drop_first() =~= path.drop_first().push(position));
        lemma_names_below(fields, position, children, path.drop_first());
        lemma_field_below(fields, position, children, path);
        if path.len() == 1 {
            assert(whole.drop_first() =~= seq![position]);
            assert(field_at(fields, seq![position]) == Some(fields[position as int]));
        } else {
            lemma_field_below(fields, position, children, path.drop_first());
        }
        assert(path_names(fields, whole) =~= seq![fields[position as int].name@] + path_names(
            children,
            path,
        ));
    }
}

/// The path that comes with a field found by name leads to that field; the names
/// along it are the ones searched for, and each field on it is the first of its
/// name among its siblings.
pub proof fn name_search_sound(
    fields: Seq<Arc<FieldNode>>,
    target: Seq<char>,
    rest: Seq<Seq<char>>,
    path: Seq<usize>,
    field: Arc<FieldNode>,
)
    requires
        fields.len() <= usize::MAX,
        find_by_name(fields, target, rest) == (Outcome::Found { path, field }),
    ensures
        path.len() > 0,
        field_at(fields, path) == Some(field),
        path_names(fields, path) == seq![target] + rest,
        first_along(fields, path),
    decreases rest.len(),
{
    lemma_first_named(fields, target, 0);
    let position = first_named(fields, target, 0)->Some_0;
    let here = fields[position];
    lemma_children_len(here);
    if rest.len() == 0 {
        assert(path =~= seq![position as usize]);
        assert(path.drop_first() =~= Seq::empty());
        assert(path_names(fields, path.drop_first()) =~= Seq::empty());
        assert(first_along(fields, path.drop_first()));
        assert(path_names(fields, path) =~= seq![target] + rest);
    } else {
        let children = children_of(here)->Some_0;
        let inner = find_by_name(children, rest[0], rest.skip(1));
        let inner_path = inner->path;
        name_search_sound(children, rest[0], rest.skip(1), inner_path, field);
        lemma_field_below(fields, position as usize, children, inner_path);
        lemma_names_below(fields, position as usize, children, inner_path);
        assert(path =~= inner_path.push(position as usize));
        assert(seq![rest[0]] + rest.skip(1) =~= rest);
    }
}

/// A path that leads to a field starts at a top-level field, which is a struct if
/// the path goes on below it.
pub(crate) proof fn lemma_path_top(fields: Seq<Arc<FieldNode>>, path: Seq<usize>)
    requires
        field_at(fields, path) is Some,
    ensures
        path.len() > 0,
        path.last() < fields.len(),
        path.len() > 1 ==> children_of(fields[path.last() as int]) is Some,
        path == path.drop_last().push(path.last()),
    decreases path.len(),
{
    assert(path =~= path.drop_last().push(path.last()));
    if path.len() > 1 {
        let upper = path.drop_first();
        lemma_path_top(fields, upper);
        assert(upper.last() == path.last());
        if path.len() == 2 {
            assert(upper =~= seq![path.last()]);
        }
    }
}

pub(crate) proof fn lemma_first_along_top(fields: Seq<Arc<FieldNode>>, path: Seq<usize>)
    requires
        path.len() > 0,
        first_along(fields, path),
    ensures
        first_of_name(fields, path.last() as int),
    decreases path.len(),
{
    if path.len() > 1 {
        lemma_first_along_top(fields, path.drop_first());
    }
}

/// A search for the names along a path finds the field that the path leads to,
/// if each field on it is the first of its name among its siblings.
pub proof fn name_search_complete(fields: Seq<Arc<FieldNode>>, path: Seq<usize>)
    requires
        fields.len() <= usize::MAX,
        field_at(fields, path) is Some,
        first_along(fields, path),
    ensures
        path_names(fields, path).len() == path.len(),
        find_by_name(
            fields,
            path_names(fields, path)[0],
            path_names(fields, path).skip(1),
        ) == (Outcome::Found { path, field: field_at(fields, path)->Some_0 }),
    decreases path.len(),
{
    lemma_path_top(fields, path);
    lemma_first_along_top(fields, path);
    let position = path.last();
    let here = fields[position as int];
    let names = path_names(fields, path);
    lemma_first_named(fields, here.name@, 0);
    assert(first_named(fields, here.name@, 0) == Some(position as int));
    if path.len() == 1 {
        assert(path_names(fields, path.drop_first()) =~= Seq::empty());
        assert(names =~= seq![here.name@]);
        assert(path =~= seq![position]);
    } else {
        let children = children_of(here)->Some_0;
        let inner = path.drop_last();
        lemma_children_len(here);
        lemma_field_below(fields, position, children, inner);
        lemma_names_below(fields, position, children, inner);
        name_search_complete(children, inner);
        let inner_names = path_names(children, inner);
        assert(names.skip(1) =~= inner_names);
        assert(names.skip(1)[0] == inner_names[0]);
    }
}

/// The names along a path, joined with dots, are a name for the field that the
/// path leads to, if each field on it is the first of its name among its siblings
/// and no name on it holds a dot.
pub proof fn dotted_name_found(fields: Seq<Arc<FieldNode>>, path: Seq<usize>)
    requires
        fields.len() <= usize::MAX,
        field_at(fields, path) is Some,
        first_along(fields, path),
        forall|k: int|
            0 <= k < path_names(fields, path).len() ==> !(#[trigger] path_names(
                fields,
                path,
            )[k]).contains('.'),
    ensures
        find_by_dotted_name(fields, join_dots(path_names(fields, path))) == (Outcome::Found {
            path,
            field: field_at(fields, path)->Some_0,
        }),
{
    name_search_complete(fields, path);
    join_splits_back(path_names(fields, path));
}

/// A path leads to a field through structs that the search enters.
pub open spec fn reachable(
    fields: Seq<Arc<FieldNode>>,
    path: Seq<usize>,
    enters: spec_fn(FieldNode) -> bool,
) -> bool
    decreases path.len(),
{
    &&& field_at(fields, path) is Some
    &&& path.len() > 1 ==> {
        &&& reachable(fields, path.drop_first(), enters)
        &&& enters(*field_at(fields, path.drop_first())->Some_0)
    }
}

/// The field that a path leads to ends the search: it has the id, or answers with
/// an error.
pub open spec fn decides(
    fields: Seq<Arc<FieldNode>>,
    path: Seq<usize>,
    target: i64,
    ids: spec_fn(FieldNode) -> Result<Option<i64>, ErrorView>,
) -> bool {
    match ids(*field_at(fields, path)->Some_0) {
        Ok(id) => id == Some(target),
        Err(_) => true,
    }
}

/// One path comes before another when fields are walked in order, each struct
/// before its own fields.
pub open spec fn precedes(path: Seq<usize>, other: Seq<usize>) -> bool
    decreases path.len(),
{
    if other.len() == 0 {
        false
    } else if path.len() == 0 {
        true
    } else if path.last() != other.last() {
        path.last() < other.last()
    } else {
        precedes(path.drop_last(), other.drop_last())
    }
}

/// Among the fields that the search can reach at or behind top-level position
/// `from`, the one that this path leads to is the first that ends it.
pub open spec fn first_decision(
    fields: Seq<Arc<FieldNode>>,
    from: int,
    path: Seq<usize>,
    target: i64,
    ids: spec_fn(FieldNode) -> Result<Option<i64>, ErrorView>,
    enters: spec_fn(FieldNode) -> bool,
) -> bool {
    &&& reachable(fields, path, enters)
    &&& path.last() >= from
    &&& decides(fields, path, target, ids)
    &&& forall|other: Seq<usize>|
        #![trigger reachable(fields, other, enters)]
        reachable(fields, other, enters) && other.last() >= from && precedes(other, path)
            ==> !decides(fields, other, target, ids)
}

/// What an id search over the fields at or behind top-level position `from`
/// promises.
pub open spec fn id_outcome_right(
    fields: Seq<Arc<FieldNode>>,
    from: int,
    target: i64,
    ids: spec_fn(FieldNode) -> Result<Option<i64>, ErrorView>,
    enters: spec_fn(FieldNode) -> bool,
    outcome: Outcome,
) -> bool {
    match outcome {
        Outcome::Found { path, field } => {
            &&& first_decision(fields, from, path, target, ids, enters)
            &&& field_at(fields, path) == Some(field)
            &&& ids(*field) == Ok::<Option<i64>, ErrorView>(Some(target))
        },
        Outcome::Failed(error) => exists|path: Seq<usize>|
            {
                &&& #[trigger] first_decision(fields, from, path, target, ids, enters)
                &&& ids(*field_at(fields, path)->Some_0) == Err::<Option<i64>, ErrorView>(error)
            },
        Outcome::Missing => forall|path: Seq<usize>|
            #![trigger reachable(fields, path, enters)]
            reachable(fields, path, enters) && path.last() >= from ==> !decides(
                fields,
                path,
                target,
                ids,
            ),
    }
}

proof fn lemma_reachable_top(
    fields: Seq<Arc<FieldNode>>,
    path: Seq<usize>,
    enters: spec_fn(FieldNode) -> bool,
)
    requires
        reachable(fields, path, enters),
        path.len() > 1,
    ensures
        path.last() < fields.len(),
        children_of(fields[path.last() as int]) is Some,
        enters(*fields[path.last() as int]),
        reachable(
            children_of(fields[path.last() as int])->Some_0,
            path.drop_last(),
            enters,
        ),
        field_at(fields, path) == field_at(
            children_of(fields[path.last() as int])->Some_0,
            path.drop_last(),
        ),
    decreases path.len(),
{
    lemma_path_top(fields, path);
    let position = path.last();
    let children = children_of(fields[position as int])->Some_0;
    let inner = path.drop_last();
    lemma_field_below(fields, position, children, inner);
    let upper = path.drop_first();
    if path.len() == 2 {
        assert(upper =~= seq![position]);
    } else {
        lemma_reachable_top(fields, upper, enters);
        assert(upper.last() == position);
        assert(upper.drop_last() =~= inner.drop_first());
    }
}

proof fn lemma_reachable_below(
    fields: Seq<Arc<FieldNode>>,
    position: usize,
    children: Seq<Arc<FieldNode>>,
    path: Seq<usize>,
    enters: spec_fn(FieldNode) -> bool,
)
    requires
        position < fields.len(),
        children_of(fields[position as int]) == Some(children),
        enters(*fields[position as int]),
        reachable(children, path, enters),
    ensures
        reachable(fields, path.push(position), enters),
    decreases path.len(),
{
    let whole = path.push(position);
    lemma_field_below(fields, position, children, path);
    if path.len() == 1 {
        let top = seq![position];
        assert(whole.drop_first() =~= top);
        assert(field_at(fields, top) == Some(fields[position as int]));
        assert(reachable(fields, top, enters));
    } else {
        assert(whole.drop_first() =~= path.drop_first().push(position));
        lemma_reachable_below(fields, position, children, path.drop_first(), enters);
        lemma_field_below(fields, position, children, path.drop_first());
    }
}

proof fn lemma_id_search(
    fields: Seq<Arc<FieldNode>>,
    from: int,
    target: i64,
    ids: spec_fn(FieldNode) -> Result<Option<i64>, ErrorView>,
    enters: spec_fn(FieldNode) -> bool,
)
    requires
        fields.len() <= usize::MAX,
        0 <= from,
    ensures
        id_outcome_right(
            fields,
            from,
            target,
            ids,
            enters,
            find_by_id(fields, from, target, ids, enters),
        ),
    decreases fields, fields.len() - from,
{
    let outcome = find_by_id(fields, from, target, ids, enters);
    if from >= fields.len() {
        assert forall|path: Seq<usize>|
            #![trigger reachable(fields, path, enters)]
            reachable(fields, path, enters) && path.last() >= from implies !decides(
            fields,
            path,
            target,
            ids,
        ) by {
            lemma_path_top(fields, path);
        }
    } else {
        let here = fields[from];
        let position = from as usize;
        let top = seq![position];
        assert(field_at(fields, top) == Some(here));
        assert(reachable(fields, top, enters));
        if decides(fields, top, target, ids) {
            assert forall|other: Seq<usize>|
                #![trigger reachable(fields, other, enters)]
                reachable(fields, other, enters) && other.last() >= from && precedes(
                    other,
                    top,
                ) implies !decides(fields, other, target, ids) by {
                lemma_path_top(fields, other);
                assert(top.drop_last() =~= Seq::empty());
                assert(!precedes(other.drop_last(), top.drop_last()));
            }
            assert(first_decision(fields, from, top, target, ids, enters));
        } else {
            lemma_children_len(here);
            let entered = children_of(here) is Some && enters(*here);
            if entered {
                lemma_id_search(children_of(here)->Some_0, 0, target, ids, enters);
            }
            lemma_id_search(fields, from + 1, target, ids, enters);
            lemma_id_search_step(fields, from, target, ids, enters);
        }
    }
}

/// The step from one top-level field, which does not end the search itself, to
/// the ones behind it.
proof fn lemma_id_search_step(
    fields: Seq<Arc<FieldNode>>,
    from: int,
    target: i64,
    ids: spec_fn(FieldNode) -> Result<Option<i64>, ErrorView>,
    enters: spec_fn(FieldNode) -> bool,
)
    requires
        fields.len() <= usize::MAX,
        0 <= from < fields.len(),
        !decides(fields, seq![from as usize], target, ids),
        children_of(fields[from]) is Some && enters(*fields[from]) ==> id_outcome_right(
            children_of(fields[from])->Some_0,
            0,
            target,
            ids,
            enters,
            find_by_id(children_of(fields[from])->Some_0, 0, target, ids, enters),
        ),
        id_outcome_right(
            fields,
            from + 1,
            target,
            ids,
            enters,
            find_by_id(fields, from + 1, target, ids, enters),
        ),
    ensures
        id_outcome_right(
            fields,
            from,
            target,
            ids,
            enters,
            find_by_id(fields, from, target, ids, enters),
        ),
{
    let here = fields[from];
    let position = from as usize;
    let outcome = find_by_id(fields, from, target, ids, enters);
    let entered = children_of(here) is Some && enters(*here);
    let children = children_of(here)->Some_0;
    let inner = if entered {
        find_by_id(children, 0, target, ids, enters)
    } else {
        Outcome::Missing
    };
    assert(field_at(fields, seq![position]) == Some(here));
    if inner is Missing {
        assert forall|path: Seq<usize>|
            #![trigger reachable(fields, path, enters)]
            reachable(fields, path, enters) && path.last() == from implies !decides(
            fields,
            path,
            target,
            ids,
        ) by {
            if path.len() == 1 {
                assert(path =~= seq![position]);
            } else {
                lemma_reachable_top(fields, path, enters);
                assert(reachable(children, path.drop_last(), enters));
            }
        }
        assert(outcome == find_by_id(fields, from + 1, target, ids, enters));
        if let Outcome::Failed(error) = outcome {
            let path = choose|path: Seq<usize>|
                {
                    &&& #[trigger] first_decision(fields, from + 1, path, target, ids, enters)
                    &&& ids(*field_at(fields, path)->Some_0) == Err::<Option<i64>, ErrorView>(
                        error,
                    )
                };
            assert(first_decision(fields, from, path, target, ids, enters));
        }
    } else {
        assert(outcome == inner.below(position));
        let inner_path = if inner is Found {
            inner->path
        } else {
            choose|path: Seq<usize>|
                {
                    &&& #[trigger] first_decision(children, 0, path, target, ids, enters)
                    &&& ids(*field_at(children, path)->Some_0) == Err::<Option<i64>, ErrorView>(
                        inner->Failed_0,
                    )
                }
        };
        assert(first_decision(children, 0, inner_path, target, ids, enters));
        let path = inner_path.push(position);
        lemma_path_top(children, inner_path);
        lemma_reachable_below(fields, position, children, inner_path, enters);
        lemma_field_below(fields, position, children, inner_path);
        assert(path.drop_last() =~= inner_path);
        assert forall|other: Seq<usize>|
            #![trigger reachable(fields, other, enters)]
            reachable(fields, other, enters) && other.last() >= from && precedes(
                other,
                path,
            ) implies !decides(fields, other, target, ids) by {
            lemma_path_top(fields, other);
            assert(other.last() == position);
            if other.len() == 1 {
                assert(other =~= seq![position]);
            } else {
                lemma_reachable_top(fields, other, enters);
                assert(reachable(children, other.drop_last(), enters));
            }
        }
        assert(first_decision(fields, from, path, target, ids, enters));
    }
}

/// An id search ends at the first field, of those it can reach, that has the id
/// or answers with an error: a struct comes before its own fields, and these
/// before what follows the struct. It finds nothing only if there is no such
/// field.
pub proof fn id_search_first(
    fields: Seq<Arc<FieldNode>>,
    target: i64,
    ids: spec_fn(FieldNode) -> Result<Option<i64>, ErrorView>,
    enters: spec_fn(FieldNode) -> bool,
)
    requires
        fields.len() <= usize::MAX,
    ensures
        id_outcome_right(
            fields,
            0,
            target,
            ids,
            enters,
            find_by_id(fields, 0, target, ids, enters),
        ),
{
    lemma_id_search(fields, 0, target, ids, enters);
}

/// Searches by functions whose answers depend on the field alone end with exactly
/// one list of hits.
pub proof fn id_searches_determined<F1, F2>(
    fields: Seq<Arc<FieldNode>>,
    targets: Seq<i32>,
    fetch: F1,
    searchable: F2,
    ids: spec_fn(FieldNode) -> Result<Option<i64>, ErrorView>,
    enters: spec_fn(FieldNode) -> bool,
    hits: Hits,
) where F1: Fn(&FieldNode) -> Result<Option<i64>, Error>, F2: Fn(&FieldNode) -> bool
    requires
        answers_as(fetch, ids),
        enters_as(searchable, enters),
        may_find_all(fields, targets, fetch, searchable, hits),
    ensures
        hits == find_all_by_id(fields, targets, ids, enters),
    decreases targets.len(),
{
    if targets.len() > 0 {
        let last = targets.last();
        assert forall|before: Hits, outcome: Outcome|
            #![trigger add_hit(before, outcome, id_not_found(last))]
            may_find_all(fields, targets.drop_last(), fetch, searchable, before) && (before is Ok
                ==> may_find(
                fields,
                0,
                last as i64,
                fetch,
                searchable,
                outcome,
            )) implies add_hit(before, outcome, id_not_found(last)) == find_all_by_id(
            fields,
            targets,
            ids,
            enters,
        ) by {
            id_searches_determined(
                fields,
                targets.drop_last(),
                fetch,
                searchable,
                ids,
                enters,
                before,
            );
            if before is Ok {
                id_search_determined(
                    fields,
                    0,
                    last as i64,
                    fetch,
                    searchable,
                    ids,
                    enters,
                    outcome,
                );
            }
        }
    }
}

/// The error of a search that found no field.
pub open spec fn search_error(outcome: Outcome, not_found: ErrorView) -> ErrorView {
    match outcome {
        Outcome::Failed(error) => error,
        _ => not_found,
    }
}

/// Searches by id give one hit for each id, in order, if each of them finds a
/// field; if not, the error of the first one that does not.
pub proof fn id_hits_in_order(
    fields: Seq<Arc<FieldNode>>,
    targets: Seq<i32>,
    ids: spec_fn(FieldNode) -> Result<Option<i64>, ErrorView>,
    enters: spec_fn(FieldNode) -> bool,
)
    ensures
        match find_all_by_id(fields, targets, ids, enters) {
            Ok(hits) => {
                &&& hits.len() == targets.len()
                &&& forall|k: int|
                    #![trigger hits[k]]
                    #![trigger targets[k]]
                    0 <= k < targets.len() ==> find_by_id(
                        fields,
                        0,
                        targets[k] as i64,
                        ids,
                        enters,
                    ) == (Outcome::Found { path: hits[k].0, field: hits[k].1 })
            },
            Err(error) => exists|k: int|
                #![trigger targets[k]]
                {
                    &&& 0 <= k < targets.len()
                    &&& forall|j: int|
                        #![trigger targets[j]]
                        0 <= j < k ==> find_by_id(
                            fields,
                            0,
                            targets[j] as i64,
                            ids,
                            enters,
                        ) is Found
                    &&& !(find_by_id(fields, 0, targets[k] as i64, ids, enters) is Found)
                    &&& error == search_error(
                        find_by_id(fields, 0, targets[k] as i64, ids, enters),
                        id_not_found(targets[k]),
                    )
                },
        },
    decreases targets.len(),
{
    if targets.len() > 0 {
        let front = targets.drop_last();
        id_hits_in_order(fields, front, ids, enters);
        assert forall|k: int| 0 <= k < front.len() implies #[trigger] front[k] == targets[k] by {}
        assert(targets[targets.len() - 1] == targets.last());
        match find_all_by_id(fields, front, ids, enters) {
            Err(error) => {
                let k = choose|k: int|
                    #![trigger front[k]]
                    {
                        &&& 0 <= k < front.len()
                        &&& forall|j: int|
                            #![trigger front[j]]
                            0 <= j < k ==> find_by_id(
                                fields,
                                0,
                                front[j] as i64,
                                ids,
                                enters,
                            ) is Found
                        &&& !(find_by_id(fields, 0, front[k] as i64, ids, enters) is Found)
                        &&& error == search_error(
                            find_by_id(fields, 0, front[k] as i64, ids, enters),
                            id_not_found(front[k]),
                        )
                    };
                assert(targets[k] == front[k]);
                assert forall|j: int| #![trigger targets[j]] 0 <= j < k implies find_by_id(
                    fields,
                    0,
                    targets[j] as i64,
                    ids,
                    enters,
                ) is Found by {
                    assert(front[j] == targets[j]);
                }
            },
            Ok(found) => {
                assert forall|j: int|
                    #![trigger targets[j]]
                    0 <= j < front.len() implies find_by_id(
                    fields,
                    0,
                    targets[j] as i64,
                    ids,
                    enters,
                ) == (Outcome::Found { path: found[j].0, field: found[j].1 }) by {
                    assert(front[j] == targets[j]);
                }
            },
        }
    }
}

/// Searches by name give one hit for each name, in order, if each of them finds a
/// field; if not, the error of the first one that does not.
pub proof fn name_hits_in_order(fields: Seq<Arc<FieldNode>>, names: Seq<Seq<char>>)
    ensures
        match find_all_by_name(fields, names) {
            Ok(hits) => {
                &&& hits.len() == names.len()
                &&& forall|k: int|
                    #![trigger hits[k]]
                    #![trigger names[k]]
                    0 <= k < names.len() ==> find_by_dotted_name(fields, names[k]) == (
                    Outcome::Found { path: hits[k].0, field: hits[k].1 })
            },
            Err(error) => exists|k: int|
                #![trigger names[k]]
                {
                    &&& 0 <= k < names.len()
                    &&& forall|j: int|
                        #![trigger names[j]]
                        0 <= j < k ==> find_by_dotted_name(fields, names[j]) is Found
                    &&& !(find_by_dotted_name(fields, names[k]) is Found)
                    &&& error == search_error(
                        find_by_dotted_name(fields, names[k]),
                        name_not_found(names[k]),
                    )
                },
        },
    decreases names.len(),
{
    if names.len() > 0 {
        let front = names.drop_last();
        name_hits_in_order(fields, front);
        assert(names[names.len() - 1] == names.last());
        match find_all_by_name(fields, front) {
            Err(error) => {
                let k = choose|k: int|
                    #![trigger front[k]]
                    {
                        &&& 0 <= k < front.len()
                        &&& forall|j: int|
                            #![trigger front[j]]
                            0 <= j < k ==> find_by_dotted_name(fields, front[j]) is Found
                        &&& !(find_by_dotted_name(fields, front[k]) is Found)
                        &&& error == search_error(
                            find_by_dotted_name(fields, front[k]),
                            name_not_found(front[k]),
                        )
                    };
                assert(names[k] == front[k]);
                assert forall|j: int| #![trigger names[j]] 0 <= j < k implies find_by_dotted_name(
                    fields,
                    names[j],
                ) is Found by {
                    assert(front[j] == names[j]);
                }
            },
            Ok(found) => {
                assert forall|j: int|
                    #![trigger names[j]]
                    0 <= j < front.len() implies find_by_dotted_name(fields, names[j]) == (
                Outcome::Found { path: found[j].0, field: found[j].1 }) by {
                    assert(front[j] == names[j]);
                }
            },
        }
    }
}

/// Once one of several id searches has ended with an error, the error stays,
/// whatever ids follow.
pub(crate) proof fn lemma_id_error_stays<F1, F2>(
    fields: Seq<Arc<FieldNode>>,
    targets: Seq<i32>,
    done: int,
    fetch: F1,
    searchable: F2,
    error: ErrorView,
) where F1: Fn(&FieldNode) -> Result<Option<i64>, Error>, F2: Fn(&FieldNode) -> bool
    requires
        0 <= done <= targets.len(),
        may_find_all(fields, targets.take(done), fetch, searchable, Hits::Err(error)),
    ensures
        may_find_all(fields, targets, fetch, searchable, Hits::Err(error)),
    decreases targets.len() - done,
{
    if done == targets.len() {
        assert(targets.take(done) =~= targets);
    } else {
        let more = targets.take(done + 1);
        assert(more.drop_last() =~= targets.take(done));
        assert(add_hit(Hits::Err(error), Outcome::Missing, id_not_found(more.last()))
            == Hits::Err(error));
        lemma_id_error_stays(fields, targets, done + 1, fetch, searchable, error);
    }
}

/// Once one of several name searches has ended with an error, the error stays,
/// whatever names follow.
pub(crate) proof fn lemma_name_error_stays(
    fields: Seq<Arc<FieldNode>>,
    names: Seq<Seq<char>>,
    done: int,
)
    requires
        0 <= done <= names.len(),
        find_all_by_name(fields, names.take(done)) is Err,
    ensures
        find_all_by_name(fields, names) == find_all_by_name(fields, names.take(done)),
    decreases names.len() - done,
{
    if done == names.len() {
        assert(names.take(done) =~= names);
    } else {
        assert(names.take(done + 1).drop_last() =~= names.take(done));
        lemma_name_error_stays(fields, names, done + 1);
    }
}

} // verus!
