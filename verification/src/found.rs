//! What a search finds, said of the fields and of the paths that lead to them.

use std::sync::Arc;

use vstd::prelude::*;

use crate::error::{Error, ErrorKind, ErrorView, SourceKind};
use crate::lookup::{
    answers_as, children_of, decides, dotted_name_found, enters_as, field_at, find_by_dotted_name,
    find_by_id, find_by_name, first_along, first_decision, first_named, id_not_found,
    id_search_first, lemma_children_len, lemma_field_below, lemma_first_along_top,
    lemma_first_named, lemma_names_below, lemma_path_top, may_find, name_not_found,
    name_search_sound, outcome_of, path_names, precedes, reachable, search_error, siblings_at,
    through_non_struct, Outcome,
};
use crate::schema::{answer_view, metadata_id, FieldNode};
use crate::text::{
    decimal_reads_back, decimal_text, join_dots, join_splits_back, parsed_i64, split_dots,
    split_joins_back,
};
use crate::written::{join_is_fold, pieces_of_text};

verus! {

/// A field answers with the number that the text of its id parses as; with an error if
/// there is a text and it does not parse; and that it has no id only if there is none.
pub proof fn id_is_the_number(field: Arc<FieldNode>)
    ensures
        match field.field_id {
            None => metadata_id(*field) == Ok::<Option<i64>, ErrorView>(None),
            Some(text) => match parsed_i64(text@) {
                Some(id) => metadata_id(*field) == Ok::<Option<i64>, ErrorView>(Some(id)),
                None => metadata_id(*field) matches Err(error) && error.kind
                    == ErrorKind::DataInvalid && error.message == "Failed to parse field id"@
                    && error.context == seq![("value"@, text@)] && error.source == Some(
                    SourceKind::ParseInt,
                ),
            },
        },
        field.field_id matches Some(text) ==> forall|n: i64|
            text@ == #[trigger] decimal_text(n as int) ==> metadata_id(*field) == Ok::<
                Option<i64>,
                ErrorView,
            >(Some(n)),
{
    if let Some(text) = field.field_id {
        assert forall|n: i64| text@ == #[trigger] decimal_text(n as int) implies metadata_id(*field)
            == Ok::<Option<i64>, ErrorView>(Some(n)) by {
            decimal_reads_back(n);
        }
        if parsed_i64(text@) is None {
            assert(metadata_id(*field)->Err_0.context =~= seq![("value"@, text@)]);
        }
    }
}

/// Contracts speak of an answer as it is given.
pub proof fn answer_as_given(answer: Result<Option<i64>, Error>)
    ensures
        match answer {
            Ok(id) => answer_view(answer) == Ok::<Option<i64>, ErrorView>(id),
            Err(error) => answer_view(answer) == Err::<Option<i64>, ErrorView>(error@),
        },
{
}

/// What fields answer, and where a search enters, depends on the field alone, if every
/// call answers as said.
pub proof fn answers_depend_on_field<F1, F2>(
    fetch: F1,
    searchable: F2,
    ids: spec_fn(FieldNode) -> Result<Option<i64>, ErrorView>,
    enters: spec_fn(FieldNode) -> bool,
) where F1: Fn(&FieldNode) -> Result<Option<i64>, Error>, F2: Fn(&FieldNode) -> bool
    ensures
        answers_as(fetch, ids) <==> forall|field: &FieldNode, answer: Result<Option<i64>, Error>|
            #[trigger] call_ensures(fetch, (field,), answer) ==> match answer {
                Ok(id) => ids(*field) == Ok::<Option<i64>, ErrorView>(id),
                Err(error) => ids(*field) == Err::<Option<i64>, ErrorView>(error@),
            },
        enters_as(searchable, enters) <==> forall|field: &FieldNode, enter: bool| #[trigger]
            call_ensures(searchable, (field,), enter) ==> enter == enters(*field),
{
    assert forall|field: &FieldNode, answer: Result<Option<i64>, Error>| #[trigger]
        call_ensures(fetch, (field,), answer) implies (answer_view(answer) == ids(*field)) == (
    match answer {
        Ok(id) => ids(*field) == Ok::<Option<i64>, ErrorView>(id),
        Err(error) => ids(*field) == Err::<Option<i64>, ErrorView>(error@),
    }) by {}
}

/// Contracts speak of how a search ended as it is reported.
pub proof fn outcome_as_reported(
    result: Result<Option<Arc<FieldNode>>, Error>,
    path: Seq<usize>,
)
    ensures
        match result {
            Ok(Some(field)) => outcome_of(result, path) == (Outcome::Found { path, field }),
            Ok(None) => outcome_of(result, path) == Outcome::Missing,
            Err(error) => outcome_of(result, path) == Outcome::Failed(error@),
        },
{
}

/// What is said if a search finds nothing, that the field was not found, and which; and
/// if a name goes on behind a field that is no struct.
pub proof fn not_found_says(id: i32, name: Seq<char>)
    ensures
        through_non_struct(name).kind == ErrorKind::Unexpected,
        through_non_struct(name).message
            == "Cannot resolve nested field by name through non-struct field"@,
        through_non_struct(name).context == seq![("field_name"@, name)],
        through_non_struct(name).source is None,
        id_not_found(id).kind == ErrorKind::Unexpected,
        id_not_found(id).message == "Field not found"@,
        id_not_found(id).context == seq![("field_id"@, decimal_text(id as int))],
        id_not_found(id).source is None,
        name_not_found(name).kind == ErrorKind::Unexpected,
        name_not_found(name).message == "Field not found"@,
        name_not_found(name).context == seq![("field_name"@, name)],
        name_not_found(name).source is None,
{
    assert(id_not_found(id).context =~= seq![("field_id"@, decimal_text(id as int))]);
    assert(name_not_found(name).context =~= seq![("field_name"@, name)]);
    assert(through_non_struct(name).context =~= seq![("field_name"@, name)]);
}

/// A search reaches a field exactly if it enters every field above it.
pub proof fn reached_if_entered(
    fields: Seq<Arc<FieldNode>>,
    path: Seq<usize>,
    enters: spec_fn(FieldNode) -> bool,
)
    ensures
        reachable(fields, path, enters) <==> field_at(fields, path) is Some && forall|k: int|
            0 < k < path.len() ==> enters(*field_at(fields, #[trigger] path.skip(k))->Some_0),
    decreases path.len(),
{
    if path.len() > 1 {
        let upper = path.drop_first();
        reached_if_entered(fields, upper, enters);
        assert(path.skip(1) =~= upper);
        assert forall|k: int| 0 < k < upper.len() implies #[trigger] upper.skip(k) == path.skip(
            k + 1,
        ) by {
            assert(upper.skip(k) =~= path.skip(k + 1));
        }
        if reachable(fields, path, enters) {
            assert forall|k: int| 0 < k < path.len() implies enters(
                *field_at(fields, #[trigger] path.skip(k))->Some_0,
            ) by {
                if k > 1 {
                    assert(upper.skip(k - 1) == path.skip(k));
                }
            }
        }
        if field_at(fields, path) is Some && forall|k: int|
            0 < k < path.len() ==> enters(*field_at(fields, #[trigger] path.skip(k))->Some_0) {
            assert forall|k: int| 0 < k < upper.len() implies enters(
                *field_at(fields, #[trigger] upper.skip(k))->Some_0,
            ) by {
                assert(upper.skip(k) == path.skip(k + 1));
            }
            assert(enters(*field_at(fields, path.skip(1))->Some_0));
        }
    }
}

/// One path comes before another exactly if, below what the two have in common from the
/// top, it ends while the other goes on, or goes on at a lower position.
pub proof fn before_in_order(path: Seq<usize>, other: Seq<usize>)
    ensures
        precedes(path, other) <==> exists|a: int, b: int|
            #![trigger path.skip(a), other.skip(b)]
            {
                &&& 0 <= a <= path.len()
                &&& 0 < b <= other.len()
                &&& path.skip(a) == other.skip(b)
                &&& a == 0 || path[a - 1] < other[b - 1]
            },
    decreases path.len(),
{
    if other.len() == 0 {
    } else if path.len() == 0 {
        assert(path.skip(0) =~= other.skip(other.len() as int));
    } else if path.last() != other.last() {
        if path.last() < other.last() {
            let a = path.len() as int;
            let b = other.len() as int;
            assert(path.skip(a) =~= other.skip(b));
            assert(path[a - 1] < other[b - 1]);
        }
        if exists|a: int, b: int|
            #![trigger path.skip(a), other.skip(b)]
            {
                &&& 0 <= a <= path.len()
                &&& 0 < b <= other.len()
                &&& path.skip(a) == other.skip(b)
                &&& a == 0 || path[a - 1] < other[b - 1]
            } {
            let (a, b) = choose|a: int, b: int|
                #![trigger path.skip(a), other.skip(b)]
                {
                    &&& 0 <= a <= path.len()
                    &&& 0 < b <= other.len()
                    &&& path.skip(a) == other.skip(b)
                    &&& a == 0 || path[a - 1] < other[b - 1]
                };
            if a < path.len() {
                assert(path.skip(a).last() == path.last());
                assert(path.skip(a).len() == other.skip(b).len());
                assert(other.skip(b).last() == other.last());
            } else {
                assert(other.skip(b).len() == 0);
            }
        }
    } else {
        let front = path.drop_last();
        let other_front = other.drop_last();
        before_in_order(front, other_front);
        if precedes(path, other) {
            let (a, b) = choose|a: int, b: int|
                #![trigger front.skip(a), other_front.skip(b)]
                {
                    &&& 0 <= a <= front.len()
                    &&& 0 < b <= other_front.len()
                    &&& front.skip(a) == other_front.skip(b)
                    &&& a == 0 || front[a - 1] < other_front[b - 1]
                };
            assert(path.skip(a) =~= front.skip(a).push(path.last()));
            assert(other.skip(b) =~= other_front.skip(b).push(other.last()));
        }
        if exists|a: int, b: int|
            #![trigger path.skip(a), other.skip(b)]
            {
                &&& 0 <= a <= path.len()
                &&& 0 < b <= other.len()
                &&& path.skip(a) == other.skip(b)
                &&& a == 0 || path[a - 1] < other[b - 1]
            } {
            let (a, b) = choose|a: int, b: int|
                #![trigger path.skip(a), other.skip(b)]
                {
                    &&& 0 <= a <= path.len()
                    &&& 0 < b <= other.len()
                    &&& path.skip(a) == other.skip(b)
                    &&& a == 0 || path[a - 1] < other[b - 1]
                };
            assert(path.skip(a).len() == other.skip(b).len());
            if a == path.len() {
                assert(b == other.len());
                assert(path[a - 1] == path.last());
            }
            assert(front.skip(a) =~= path.skip(a).drop_last());
            assert(other_front.skip(b) =~= other.skip(b).drop_last());
        }
    }
}

/// Where a search by id ends. Of the fields that it reaches, taken in order, each struct
/// before its own fields, the first one to have the id is found, unless a field before
/// it answers with an error: then that is the error. Without either nothing is found.
pub proof fn id_search_ends(
    fields: Seq<Arc<FieldNode>>,
    target: i64,
    ids: spec_fn(FieldNode) -> Result<Option<i64>, ErrorView>,
    enters: spec_fn(FieldNode) -> bool,
)
    requires
        fields.len() <= usize::MAX,
    ensures
        match find_by_id(fields, 0, target, ids, enters) {
            Outcome::Found { path, field } => {
                &&& reachable(fields, path, enters)
                &&& field_at(fields, path) == Some(field)
                &&& ids(*field) == Ok::<Option<i64>, ErrorView>(Some(target))
                &&& forall|other: Seq<usize>|
                    #![trigger reachable(fields, other, enters)]
                    reachable(fields, other, enters) && precedes(other, path) ==> (ids(
                        *field_at(fields, other)->Some_0,
                    ) matches Ok(id) && id != Some(target))
            },
            Outcome::Failed(error) => exists|path: Seq<usize>|
                #![trigger reachable(fields, path, enters)]
                {
                    &&& reachable(fields, path, enters)
                    &&& ids(*field_at(fields, path)->Some_0) == Err::<Option<i64>, ErrorView>(error)
                    &&& forall|other: Seq<usize>|
                        #![trigger reachable(fields, other, enters)]
                        reachable(fields, other, enters) && precedes(other, path) ==> (ids(
                            *field_at(fields, other)->Some_0,
                        ) matches Ok(id) && id != Some(target))
                },
            Outcome::Missing => forall|other: Seq<usize>|
                #![trigger reachable(fields, other, enters)]
                reachable(fields, other, enters) ==> (ids(
                    *field_at(fields, other)->Some_0,
                ) matches Ok(id) && id != Some(target)),
        },
{
    id_search_first(fields, target, ids, enters);
    assert forall|other: Seq<usize>|
        #![trigger reachable(fields, other, enters)]
        reachable(fields, other, enters) implies {
        &&& decides(fields, other, target, ids) <==> !(ids(
            *field_at(fields, other)->Some_0,
        ) matches Ok(id) && id != Some(target))
    } by {}
    if let Outcome::Failed(error) = find_by_id(fields, 0, target, ids, enters) {
        let path = choose|path: Seq<usize>|
            {
                &&& #[trigger] first_decision(fields, 0, path, target, ids, enters)
                &&& ids(*field_at(fields, path)->Some_0) == Err::<Option<i64>, ErrorView>(error)
            };
        assert(reachable(fields, path, enters));
    }
}

/// Whatever the fields answer from call to call: a field is found because it answered
/// with the id, and an error is one that a field answered with.
pub proof fn found_because_asked<F1, F2>(
    fields: Seq<Arc<FieldNode>>,
    from: int,
    target: i64,
    fetch: F1,
    searchable: F2,
    outcome: Outcome,
) where F1: Fn(&FieldNode) -> Result<Option<i64>, Error>, F2: Fn(&FieldNode) -> bool
    requires
        may_find(fields, from, target, fetch, searchable, outcome),
    ensures
        match outcome {
            Outcome::Found { path, field } => exists|answer: Result<Option<i64>, Error>| #[trigger]
                call_ensures(fetch, (&*field,), answer) && answer == Ok::<Option<i64>, Error>(
                    Some(target),
                ),
            Outcome::Failed(view) => exists|field: Arc<FieldNode>, error: Error| #[trigger]
                call_ensures(fetch, (&*field,), Err::<Option<i64>, Error>(error)) && error@ == view,
            Outcome::Missing => true,
        },
    decreases fields, fields.len() - from,
{
    if 0 <= from < fields.len() {
        let position = from as usize;
        let here = fields[from];
        if may_find(fields, from + 1, target, fetch, searchable, outcome) {
            found_because_asked(fields, from + 1, target, fetch, searchable, outcome);
        } else {
            let answer = choose|answer: Result<Option<i64>, Error>|
                #[trigger] call_ensures(fetch, (&*here,), answer) && match answer {
                    Err(error) => outcome == Outcome::Failed(error@),
                    Ok(id) => if id == Some(target) {
                        outcome == (Outcome::Found { path: seq![from as usize], field: here })
                    } else {
                        match here.children {
                            None => may_find(
                                fields,
                                from + 1,
                                target,
                                fetch,
                                searchable,
                                outcome,
                            ),
                            Some(children) => exists|enter: bool|
                                #[trigger] call_ensures(searchable, (&*here,), enter) && if enter {
                                    exists|inner: Outcome|
                                        may_find(
                                            children@,
                                            0,
                                            target,
                                            fetch,
                                            searchable,
                                            inner,
                                        ) && if (#[trigger] inner.below(from as usize)) is Missing {
                                            may_find(
                                                fields,
                                                from + 1,
                                                target,
                                                fetch,
                                                searchable,
                                                outcome,
                                            )
                                        } else {
                                            outcome == inner.below(from as usize)
                                        }
                                } else {
                                    may_find(
                                        fields,
                                        from + 1,
                                        target,
                                        fetch,
                                        searchable,
                                        outcome,
                                    )
                                },
                        }
                    },
                };
            if let Ok(id) = answer {
                if id != Some(target) {
                    let children = children_of(here)->Some_0;
                    let inner = choose|inner: Outcome|
                        may_find(children, 0, target, fetch, searchable, inner) && if (
                        #[trigger] inner.below(from as usize)) is Missing {
                            may_find(fields, from + 1, target, fetch, searchable, outcome)
                        } else {
                            outcome == inner.below(from as usize)
                        };
                    found_because_asked(children, 0, target, fetch, searchable, inner);
                }
            } else {
                assert(call_ensures(fetch, (&*here,), Err::<Option<i64>, Error>(answer->Err_0)));
            }
        }
    }
}

/// The names along a path are those of the fields on it, from the top down.
pub proof fn names_along_path(fields: Seq<Arc<FieldNode>>, path: Seq<usize>)
    ensures
        path_names(fields, path) == Seq::new(
            path.len(),
            |i: int| field_at(fields, path.skip(path.len() - 1 - i))->Some_0.name@,
        ),
    decreases path.len(),
{
    let names = Seq::new(
        path.len(),
        |i: int| field_at(fields, path.skip(path.len() - 1 - i))->Some_0.name@,
    );
    if path.len() > 0 {
        let upper = path.drop_first();
        names_along_path(fields, upper);
        assert forall|i: int| 0 <= i < path.len() implies #[trigger] path_names(fields, path)[i]
            == names[i] by {
            if i < upper.len() {
                assert(upper.skip(upper.len() - 1 - i) =~= path.skip(path.len() - 1 - i));
            } else {
                assert(path.skip(0) =~= path);
            }
        }
        assert(path_names(fields, path).len() == path.len());
    }
    assert(path_names(fields, path) =~= names);
}

/// Every field on a path is the first of its name exactly if no field at a lower
/// position, on any level, has the name of the one on the path.
pub proof fn first_along_means(fields: Seq<Arc<FieldNode>>, path: Seq<usize>)
    requires
        field_at(fields, path) is Some,
    ensures
        first_along(fields, path) <==> forall|k: int, lower: usize|
            #![trigger path.skip(k).update(0, lower)]
            0 <= k < path.len() && lower < path[k] ==> field_at(
                fields,
                path.skip(k).update(0, lower),
            )->Some_0.name@ != field_at(fields, path.skip(k))->Some_0.name@,
    decreases path.len(),
{
    let upper = path.drop_first();
    let siblings = siblings_at(fields, path)->Some_0;
    assert(path.skip(0) =~= path);
    if path.len() > 1 {
        first_along_means(fields, upper);
        assert(path.skip(1) =~= upper);
    } else {
        assert(first_along(fields, upper));
    }
    assert forall|lower: usize| lower < path[0] implies #[trigger] field_at(
        fields,
        path.update(0, lower),
    ) == Some(siblings[lower as int]) by {
        assert(path.update(0, lower).drop_first() =~= upper);
    }
    assert forall|k: int| 0 <= k < upper.len() implies #[trigger] upper.skip(k) == path.skip(
        k + 1,
    ) by {
        assert(upper.skip(k) =~= path.skip(k + 1));
    }
    if first_along(fields, path) {
        assert forall|k: int, lower: usize|
            #![trigger path.skip(k).update(0, lower)]
            0 <= k < path.len() && lower < path[k] implies field_at(
            fields,
            path.skip(k).update(0, lower),
        )->Some_0.name@ != field_at(fields, path.skip(k))->Some_0.name@ by {
            if k == 0 {
                assert(siblings[lower as int].name@ != siblings[path[0] as int].name@);
            } else {
                assert(upper.skip(k - 1) == path.skip(k));
                assert(upper[k - 1] == path[k]);
                assert(upper.skip(k - 1).update(0, lower) == path.skip(k).update(0, lower));
            }
        }
    }
    if forall|k: int, lower: usize|
        #![trigger path.skip(k).update(0, lower)]
        0 <= k < path.len() && lower < path[k] ==> field_at(
            fields,
            path.skip(k).update(0, lower),
        )->Some_0.name@ != field_at(fields, path.skip(k))->Some_0.name@ {
        assert forall|i: int| 0 <= i < path[0] implies (#[trigger] siblings[i]).name@
            != siblings[path[0] as int].name@ by {
            let lower = i as usize;
            assert(path.skip(0).update(0, lower) == path.update(0, lower));
            assert(field_at(fields, path.update(0, lower)) == Some(siblings[lower as int]));
        }
        if path.len() > 1 {
            assert forall|k: int, lower: usize|
                #![trigger upper.skip(k).update(0, lower)]
                0 <= k < upper.len() && lower < upper[k] implies field_at(
                fields,
                upper.skip(k).update(0, lower),
            )->Some_0.name@ != field_at(fields, upper.skip(k))->Some_0.name@ by {
                assert(upper.skip(k) == path.skip(k + 1));
                assert(upper[k] == path[k + 1]);
                assert(path.skip(k + 1).update(0, lower) == upper.skip(k).update(0, lower));
            }
        }
    }
}

/// A field that is found by a dot-separated name has that name: the names along the path
/// that leads to it, with a dot between each two, are the name, none of them holds a dot,
/// and no field at a lower position has one of them.
pub proof fn found_name_is_its_name(fields: Seq<Arc<FieldNode>>, name: Seq<char>)
    requires
        fields.len() <= usize::MAX,
    ensures
        find_by_dotted_name(fields, name) matches Outcome::Found { path, field } ==> {
            let names = Seq::new(
                path.len(),
                |i: int| field_at(fields, path.skip(path.len() - 1 - i))->Some_0.name@,
            );
            &&& path.len() > 0
            &&& field_at(fields, path) == Some(field)
            &&& name == names.skip(1).fold_left(
                names[0],
                |text: Seq<char>, piece: Seq<char>| text.push('.') + piece,
            )
            &&& forall|i: int| 0 <= i < names.len() ==> !(#[trigger] names[i]).contains('.')
            &&& forall|k: int, lower: usize|
                #![trigger path.skip(k).update(0, lower)]
                0 <= k < path.len() && lower < path[k] ==> field_at(
                    fields,
                    path.skip(k).update(0, lower),
                )->Some_0.name@ != field_at(fields, path.skip(k))->Some_0.name@
        },
{
    if let Outcome::Found { path, field } = find_by_dotted_name(fields, name) {
        let pieces = split_dots(name);
        pieces_of_text(name, pieces);
        name_search_sound(fields, pieces[0], pieces.skip(1), path, field);
        assert(seq![pieces[0]] + pieces.skip(1) =~= pieces);
        names_along_path(fields, path);
        first_along_means(fields, path);
    }
}

/// Every field is found by the names along the path to it, with a dot between each two,
/// if none of them holds a dot and no field at a lower position has one of them.
pub proof fn field_found_by_its_name(
    fields: Seq<Arc<FieldNode>>,
    path: Seq<usize>,
    name: Seq<char>,
)
    requires
        fields.len() <= usize::MAX,
        field_at(fields, path) is Some,
        ({
            let names = Seq::new(
                path.len(),
                |i: int| field_at(fields, path.skip(path.len() - 1 - i))->Some_0.name@,
            );
            &&& name == names.skip(1).fold_left(
                names[0],
                |text: Seq<char>, piece: Seq<char>| text.push('.') + piece,
            )
            &&& forall|i: int| 0 <= i < names.len() ==> !(#[trigger] names[i]).contains('.')
        }),
        forall|k: int, lower: usize|
            #![trigger path.skip(k).update(0, lower)]
            0 <= k < path.len() && lower < path[k] ==> field_at(
                fields,
                path.skip(k).update(0, lower),
            )->Some_0.name@ != field_at(fields, path.skip(k))->Some_0.name@,
    ensures
        find_by_dotted_name(fields, name) == (Outcome::Found {
            path,
            field: field_at(fields, path)->Some_0,
        }),
{
    let names = Seq::new(
        path.len(),
        |i: int| field_at(fields, path.skip(path.len() - 1 - i))->Some_0.name@,
    );
    lemma_path_top(fields, path);
    names_along_path(fields, path);
    first_along_means(fields, path);
    assert(path_names(fields, path) == names);
    join_is_fold(names);
    dotted_name_found(fields, path);
}

/// Text before a dot and text behind it are split one by one.
proof fn lemma_split_at_dot(before: Seq<char>, behind: Seq<char>)
    ensures
        split_dots(before.push('.') + behind) == split_dots(before) + split_dots(behind),
    decreases behind.len(),
{
    let whole = before.push('.') + behind;
    split_joins_back(before);
    if behind.len() == 0 {
        assert(whole =~= before.push('.'));
        assert(whole.drop_last() =~= before);
        assert(split_dots(whole) =~= split_dots(before) + split_dots(behind));
    } else {
        let front = behind.drop_last();
        lemma_split_at_dot(before, front);
        split_joins_back(front);
        assert(whole.drop_last() =~= before.push('.') + front);
        assert(whole.last() == behind.last());
        assert(split_dots(whole) =~= split_dots(before) + split_dots(behind));
    }
}

/// Some pieces joined are the front of all of them joined, and a dot follows.
proof fn lemma_join_front(pieces: Seq<Seq<char>>, count: int)
    requires
        0 < count < pieces.len(),
    ensures
        ({
            let front = join_dots(pieces.take(count));
            let whole = join_dots(pieces);
            &&& front.len() < whole.len()
            &&& whole.take(front.len() as int) == front
            &&& whole[front.len() as int] == '.'
        }),
    decreases pieces.len(),
{
    let rest = pieces.drop_last();
    let front = join_dots(pieces.take(count));
    let whole = join_dots(pieces);
    if count == pieces.len() - 1 {
        assert(pieces.take(count) =~= rest);
        assert(whole.take(front.len() as int) =~= front);
    } else {
        lemma_join_front(rest, count);
        assert(rest.take(count) =~= pieces.take(count));
        assert(whole.take(front.len() as int) =~= join_dots(rest).take(front.len() as int));
    }
}

/// Where a search for names fails, a path leads to a field that is no struct, under the
/// first of these names, and names are left.
pub proof fn failed_names_go_on(
    fields: Seq<Arc<FieldNode>>,
    target: Seq<char>,
    rest: Seq<Seq<char>>,
) -> (path: Seq<usize>)
    requires
        fields.len() <= usize::MAX,
        find_by_name(fields, target, rest) is Failed,
    ensures
        field_at(fields, path) matches Some(field) && field.children is None && find_by_name(
            fields,
            target,
            rest,
        ) == Outcome::Failed(through_non_struct(field.name@)),
        path.len() <= rest.len(),
        path_names(fields, path) == (seq![target] + rest).take(path.len() as int),
        first_along(fields, path),
    decreases rest.len(),
{
    lemma_first_named(fields, target, 0);
    let position = first_named(fields, target, 0)->Some_0;
    let here = fields[position];
    lemma_children_len(here);
    if children_of(here) is None {
        let path = seq![position as usize];
        assert(path.drop_first() =~= Seq::empty());
        assert(path_names(fields, path.drop_first()) =~= Seq::empty());
        assert(first_along(fields, path.drop_first()));
        assert(path_names(fields, path) =~= (seq![target] + rest).take(1));
        path
    } else {
        let children = children_of(here)->Some_0;
        let inner = failed_names_go_on(children, rest[0], rest.skip(1));
        lemma_path_top(children, inner);
        lemma_field_below(fields, position as usize, children, inner);
        lemma_names_below(fields, position as usize, children, inner);
        let path = inner.push(position as usize);
        assert(seq![rest[0]] + rest.skip(1) =~= rest);
        assert((seq![target] + rest).take(path.len() as int) =~= seq![target] + rest.take(
            inner.len() as int,
        ));
        path
    }
}

/// A search by a dot-separated name that fails does so at a field which is no struct:
/// the names along the path to that field, with a dot between each two, are the front of
/// the name, and a dot follows there. The error says which field it was.
pub proof fn failed_name_goes_on(fields: Seq<Arc<FieldNode>>, name: Seq<char>) -> (path: Seq<usize>)
    requires
        fields.len() <= usize::MAX,
        find_by_dotted_name(fields, name) is Failed,
    ensures
        path.len() > 0,
        field_at(fields, path) matches Some(field) && field.children is None && ({
            let error = find_by_dotted_name(fields, name)->Failed_0;
            &&& error.kind == ErrorKind::Unexpected
            &&& error.message == "Cannot resolve nested field by name through non-struct field"@
            &&& error.context == seq![("field_name"@, field.name@)]
            &&& error.source is None
        }),
        ({
            let names = Seq::new(
                path.len(),
                |i: int| field_at(fields, path.skip(path.len() - 1 - i))->Some_0.name@,
            );
            let front = names.skip(1).fold_left(
                names[0],
                |text: Seq<char>, piece: Seq<char>| text.push('.') + piece,
            );
            &&& forall|i: int| 0 <= i < names.len() ==> !(#[trigger] names[i]).contains('.')
            &&& front.len() < name.len()
            &&& name.take(front.len() as int) == front
            &&& name[front.len() as int] == '.'
        }),
        forall|k: int, lower: usize|
            #![trigger path.skip(k).update(0, lower)]
            0 <= k < path.len() && lower < path[k] ==> field_at(
                fields,
                path.skip(k).update(0, lower),
            )->Some_0.name@ != field_at(fields, path.skip(k))->Some_0.name@,
{
    let pieces = split_dots(name);
    pieces_of_text(name, pieces);
    split_joins_back(name);
    let path = failed_names_go_on(fields, pieces[0], pieces.skip(1));
    assert(seq![pieces[0]] + pieces.skip(1) =~= pieces);
    lemma_path_top(fields, path);
    names_along_path(fields, path);
    first_along_means(fields, path);
    let names = pieces.take(path.len() as int);
    join_is_fold(names);
    lemma_join_front(pieces, path.len() as int);
    let field = field_at(fields, path)->Some_0;
    assert(through_non_struct(field.name@).context =~= seq![("field_name"@, field.name@)]);
    path
}

/// A search for names fails if names are left behind a field that is no struct.
pub proof fn names_behind_no_struct_fail(
    fields: Seq<Arc<FieldNode>>,
    path: Seq<usize>,
    rest: Seq<Seq<char>>,
)
    requires
        fields.len() <= usize::MAX,
        field_at(fields, path) matches Some(field) && field.children is None,
        first_along(fields, path),
        rest.len() > 0,
    ensures
        path_names(fields, path).len() == path.len(),
        find_by_name(
            fields,
            (path_names(fields, path) + rest)[0],
            (path_names(fields, path) + rest).skip(1),
        ) == Outcome::Failed(through_non_struct(field_at(fields, path)->Some_0.name@)),
    decreases path.len(),
{
    lemma_path_top(fields, path);
    lemma_first_along_top(fields, path);
    let position = path.last();
    let here = fields[position as int];
    let names = path_names(fields, path);
    lemma_first_named(fields, here.name@, 0);
    assert(first_named(fields, here.name@, 0) == Some(position as int));
    if path.len() == 1 {
        assert(path_names(fields, path.drop_first()) =~= Seq::empty());
        assert(names =~= seq![here.name@]);
        assert(path =~= seq![position]);
        assert((names + rest).skip(1) =~= rest);
    } else {
        let children = children_of(here)->Some_0;
        let inner = path.drop_last();
        lemma_children_len(here);
        lemma_field_below(fields, position, children, inner);
        lemma_names_below(fields, position, children, inner);
        names_behind_no_struct_fail(children, inner, rest);
        let inner_names = path_names(children, inner);
        assert((names + rest).skip(1) =~= inner_names + rest);
        assert((names + rest)[0] == here.name@);
        assert((names + rest).skip(1)[0] == (inner_names + rest)[0]);
    }
}

/// A search by a dot-separated name fails if the name goes on behind a field that is no
/// struct.
pub proof fn name_behind_no_struct_fails(
    fields: Seq<Arc<FieldNode>>,
    path: Seq<usize>,
    name: Seq<char>,
)
    requires
        fields.len() <= usize::MAX,
        field_at(fields, path) matches Some(field) && field.children is None,
        ({
            let names = Seq::new(
                path.len(),
                |i: int| field_at(fields, path.skip(path.len() - 1 - i))->Some_0.name@,
            );
            let front = names.skip(1).fold_left(
                names[0],
                |text: Seq<char>, piece: Seq<char>| text.push('.') + piece,
            );
            &&& forall|i: int| 0 <= i < names.len() ==> !(#[trigger] names[i]).contains('.')
            &&& front.len() < name.len()
            &&& name.take(front.len() as int) == front
            &&& name[front.len() as int] == '.'
        }),
        forall|k: int, lower: usize|
            #![trigger path.skip(k).update(0, lower)]
            0 <= k < path.len() && lower < path[k] ==> field_at(
                fields,
                path.skip(k).update(0, lower),
            )->Some_0.name@ != field_at(fields, path.skip(k))->Some_0.name@,
    ensures
        find_by_dotted_name(fields, name) is Failed,
{
    let names = Seq::new(
        path.len(),
        |i: int| field_at(fields, path.skip(path.len() - 1 - i))->Some_0.name@,
    );
    lemma_path_top(fields, path);
    names_along_path(fields, path);
    first_along_means(fields, path);
    join_is_fold(names);
    let front = join_dots(names);
    let behind = name.skip(front.len() as int + 1);
    assert(name =~= front.push('.') + behind);
    lemma_split_at_dot(front, behind);
    join_splits_back(names);
    split_joins_back(behind);
    names_behind_no_struct_fail(fields, path, split_dots(behind));
}

/// The error of a search that found no field is its own, or else says that the field was
/// not found.
pub proof fn search_error_says(outcome: Outcome, not_found: ErrorView)
    ensures
        match outcome {
            Outcome::Failed(error) => search_error(outcome, not_found) == error,
            _ => search_error(outcome, not_found) == not_found,
        },
{
}

} // verus!
