//! What is said of types, columns and null buffers, sort by sort.

use arrow_buffer::NullBuffer;
use vstd::prelude::*;

use crate::contents::{
    bits_cover, builds, column_consistent, columns_fit, field_id_text, masked, own_bits,
    same_shape, well_made, ColumnModel, FieldModel, TypeModel,
};
use crate::outside::{null_bits, null_mask, nulls_len, row_valid};

verus! {

/// Arrow builds a column anew for whatever bits, if it is of a type whose values are of
/// one width. A well made column it does not build only if its type cannot carry a null
/// buffer and a bit marks a null; one that is not well made has to pass the checks.
pub proof fn builds_by_type(column: ColumnModel, bits: Seq<bool>)
    ensures
        column.data_type is Flat ==> builds(column, bits),
        well_made(column) && !(column.data_type is Bare) ==> builds(column, bits),
        column.data_type is Bare && (exists|row: int|
            0 <= row < bits.len() && !#[trigger] bits[row]) ==> !builds(column, bits),
        well_made(column) && (forall|row: int| 0 <= row < bits.len() ==> #[trigger] bits[row])
            ==> builds(column, bits),
        !well_made(column) && !(column.data_type is Bare) ==> (builds(column, bits) <==> (
        column.rebuilds)(bits)),
        !well_made(column) && builds(column, bits) ==> (column.rebuilds)(bits),
{
    if exists|row: int| 0 <= row < bits.len() && !#[trigger] bits[row] {
        let row = choose|row: int| 0 <= row < bits.len() && !#[trigger] bits[row];
        assert(bits.contains(false));
    }
}

/// Which columns are well made: all of a type whose values are of one width; a struct
/// column exactly if it has one column for each field, each of exactly the field's type
/// and well made; any other that passes the checks with the nulls that it has.
pub proof fn well_made_by_type(column: ColumnModel)
    ensures
        match column.data_type {
            TypeModel::Flat(_) => well_made(column),
            TypeModel::Struct(fields) => well_made(column) <==> {
                &&& column.children matches Some(children)
                &&& children.len() == fields.len()
                &&& forall|i: int|
                    #![trigger children[i]]
                    0 <= i < children.len() ==> children[i].data_type == fields[i].data_type
                        && well_made(children[i])
            },
            TypeModel::Masked(_) => well_made(column) <==> (column.rebuilds)(
                Seq::new(column.rows.len(), |row: int| column.rows[row] is Some),
            ),
            TypeModel::Bare(_) => well_made(column) <==> (column.rebuilds)(
                Seq::new(column.rows.len(), |row: int| true),
            ),
        },
{
    assert(own_bits(column) =~= Seq::new(
        column.rows.len(),
        |row: int| column.rows[row] is Some,
    ));
    assert(column.rows.map_values(|value: Option<Seq<u8>>| true) =~= Seq::new(
        column.rows.len(),
        |row: int| true,
    ));
}

/// Two types nest alike if they are of one sort: structs with as many fields, which
/// nest alike in turn, or types of one width that are the same.
pub proof fn same_shape_by_type(left: TypeModel, right: TypeModel)
    ensures
        same_shape(left, right) <==> match left {
            TypeModel::Struct(fields) => right matches TypeModel::Struct(others) && fields.len()
                == others.len() && forall|i: int|
                #![trigger fields[i]]
                0 <= i < fields.len() ==> same_shape(fields[i].data_type, others[i].data_type),
            TypeModel::Flat(_) => left == right,
            TypeModel::Masked(_) => right is Masked,
            TypeModel::Bare(_) => right is Bare,
        },
{
}

/// A column of a struct type has one column for each field, nested like it, as long as
/// itself, and so on below.
pub proof fn consistent_by_type(column: ColumnModel)
    ensures
        column_consistent(column) <==> (column.data_type matches TypeModel::Struct(fields) ==> {
            &&& column.children matches Some(children)
            &&& children.len() == fields.len()
            &&& forall|i: int|
                #![trigger children[i]]
                0 <= i < children.len() ==> same_shape(fields[i].data_type, children[i].data_type)
                    && children[i].rows.len() == column.rows.len() && column_consistent(children[i])
        }),
{
}

/// Columns fit fields if there is one for each, nested like it, and all are of one
/// length.
pub proof fn columns_fit_each(fields: Seq<FieldModel>, columns: Seq<ColumnModel>)
    ensures
        columns_fit(fields, columns) <==> {
            &&& columns.len() == fields.len()
            &&& forall|i: int, j: int|
                #![trigger columns[i], columns[j]]
                0 <= i < columns.len() && 0 <= j < columns.len() ==> {
                    &&& same_shape(fields[i].data_type, columns[i].data_type)
                    &&& column_consistent(columns[i])
                    &&& columns[i].rows.len() == columns[j].rows.len()
                }
        },
{
}

/// The text of a field's id is the one in its metadata under `PARQUET:field_id`.
pub proof fn id_text_in_metadata(field: FieldModel)
    ensures
        field_id_text(field) == if field.metadata.contains_key("PARQUET:field_id"@) {
            Some(field.metadata["PARQUET:field_id"@])
        } else {
            None
        },
{
}

/// A column with other null bits differs only in its nulls: a row whose bit is set holds
/// what it held, and every other row is null.
pub proof fn masked_rows(column: ColumnModel, bits: Seq<bool>)
    requires
        bits.len() == column.rows.len(),
    ensures
        masked(column, bits).data_type == column.data_type,
        masked(column, bits).children == column.children,
        masked(column, bits).rebuilds == column.rebuilds,
        masked(column, bits).marks_nulls <==> exists|row: int|
            0 <= row < bits.len() && !#[trigger] bits[row],
        masked(column, bits).rows.len() == column.rows.len(),
        forall|row: int|
            #![trigger masked(column, bits).rows[row]]
            0 <= row < column.rows.len() ==> masked(column, bits).rows[row] == if bits[row] {
                column.rows[row]
            } else {
                None
            },
{
    if exists|row: int| 0 <= row < bits.len() && !#[trigger] bits[row] {
        let row = choose|row: int| 0 <= row < bits.len() && !#[trigger] bits[row];
        assert(bits.contains(false));
    }
}

/// The bits of a column's rows say which of them hold a value; bits cover a column if
/// there is one for each row, and none is set where the row holds nothing.
pub proof fn bits_of_rows(column: ColumnModel, bits: Seq<bool>)
    ensures
        own_bits(column) == Seq::new(column.rows.len(), |row: int| column.rows[row] is Some),
        bits_cover(column, bits) <==> bits.len() == column.rows.len() && forall|row: int|
            0 <= row < bits.len() ==> (#[trigger] bits[row] ==> column.rows[row] is Some),
{
    assert(own_bits(column) =~= Seq::new(
        column.rows.len(),
        |row: int| column.rows[row] is Some,
    ));
}

/// Without a null buffer every row is valid; with one a row is valid if its bit says so.
pub proof fn validity_of_rows(nulls: Option<NullBuffer>, len: nat, row: int)
    ensures
        match nulls {
            None => row_valid(nulls, row) && nulls_len(nulls, len) && null_mask(nulls, len)
                == Seq::new(len, |at: int| true),
            Some(buffer) => {
                &&& row_valid(nulls, row) == null_bits(buffer)[row]
                &&& nulls_len(nulls, len) <==> null_bits(buffer).len() == len
                &&& nulls_len(nulls, len) ==> null_mask(nulls, len) == null_bits(buffer)
            },
        },
{
    match nulls {
        None => {
            assert(null_mask(nulls, len) =~= Seq::new(len, |at: int| true));
        },
        Some(buffer) => {
            if nulls_len(nulls, len) {
                assert(null_mask(nulls, len) =~= null_bits(buffer));
            }
        },
    }
}

} // verus!
