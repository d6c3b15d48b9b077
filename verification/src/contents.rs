//! What Arrow's fields, schemas, columns and record batches hold, as
//! mathematical values.

use vstd::prelude::*;

verus! {

/// A data type, as far as projection tells types apart. Two types that are no
/// structs are equal exactly if they are of one sort and their codes are equal.
pub enum TypeModel {
    /// A struct with these fields.
    Struct(Seq<FieldModel>),
    /// A type whose values are of one width: booleans, numbers, decimals, dates,
    /// times, durations, intervals, and bytes of a fixed number.
    Flat(int),
    /// The other types whose columns can carry a null buffer: strings and bytes of
    /// any length, lists and list views, maps, dictionaries.
    Masked(int),
    /// The types whose columns cannot carry a null buffer: unions, runs, and the
    /// type that has no values.
    Bare(int),
}

/// A field of a schema or of a struct. Arrow takes two fields for equal exactly
/// if these four agree.
pub struct FieldModel {
    pub name: Seq<char>,
    pub metadata: Map<Seq<char>, Seq<char>>,
    pub nullable: bool,
    pub data_type: TypeModel,
}

/// A schema: its fields in order, and its own metadata.
pub struct SchemaModel {
    pub fields: Seq<FieldModel>,
    pub metadata: Map<Seq<char>, Seq<char>>,
}

/// A column.
pub struct ColumnModel {
    pub data_type: TypeModel,
    /// What each row holds: the value, as some encoding of it in bytes, or
    /// nothing if the row is null.
    pub rows: Seq<Option<Seq<u8>>>,
    /// Whether the column's own null buffer marks any row as null.
    pub marks_nulls: bool,
    /// The columns of a struct column; none for any other column.
    pub children: Option<Seq<ColumnModel>>,
    /// Whether Arrow's checks accept the column's data when its null buffer is
    /// replaced by one with these bits, a valid row being `true`.
    pub rebuilds: spec_fn(Seq<bool>) -> bool,
}

/// A record batch: a schema and one column for each of its fields.
pub struct BatchModel {
    pub schema: SchemaModel,
    pub columns: Seq<ColumnModel>,
}

/// The metadata key under which a field's id is kept.
pub open spec fn field_id_key() -> Seq<char> {
    "PARQUET:field_id"@
}

/// The text kept under the field-id key, if there is one.
pub open spec fn field_id_text(field: FieldModel) -> Option<Seq<char>> {
    if field.metadata.contains_key(field_id_key()) {
        Some(field.metadata[field_id_key()])
    } else {
        None
    }
}

/// Two types nest structs in the same way: what is a struct in the one is a
/// struct with as many fields in the other, and what is flat in the one is the
/// same flat type in the other. Of other types only the sort is compared.
pub open spec fn same_shape(left: TypeModel, right: TypeModel) -> bool
    decreases left,
{
    match (left, right) {
        (TypeModel::Struct(fields), TypeModel::Struct(others)) => {
            &&& fields.len() == others.len()
            &&& forall|i: int|
                #![trigger fields[i]]
                0 <= i < fields.len() ==> same_shape(fields[i].data_type, others[i].data_type)
        },
        (TypeModel::Flat(code), TypeModel::Flat(other)) => code == other,
        (TypeModel::Bare(_), TypeModel::Bare(_)) => true,
        (TypeModel::Masked(_), TypeModel::Masked(_)) => true,
        _ => false,
    }
}

/// A column whose type is a struct has one column for each field of that struct,
/// nested as the field is and as long as the column itself; and so on below.
pub open spec fn column_consistent(column: ColumnModel) -> bool
    decreases column,
{
    match column.data_type {
        TypeModel::Struct(fields) => match column.children {
            Some(children) => {
                &&& children.len() == fields.len()
                &&& forall|i: int|
                    #![trigger children[i]]
                    0 <= i < children.len() ==> {
                        &&& same_shape(fields[i].data_type, children[i].data_type)
                        &&& children[i].rows.len() == column.rows.len()
                        &&& column_consistent(children[i])
                    }
            },
            None => false,
        },
        _ => true,
    }
}

/// Which rows of a column hold a value.
pub open spec fn own_bits(column: ColumnModel) -> Seq<bool> {
    column.rows.map_values(|value: Option<Seq<u8>>| value is Some)
}

/// Bits for the rows of a column, of which none is `true` for a row that holds
/// nothing.
pub open spec fn bits_cover(column: ColumnModel, bits: Seq<bool>) -> bool {
    &&& bits.len() == column.rows.len()
    &&& forall|row: int|
        #![trigger bits[row]]
        0 <= row < bits.len() && bits[row] ==> column.rows[row] is Some
}

/// Arrow's checks find nothing to object to in the column as it is: it is of a
/// flat type, whose arrays keep all that is checked; or a struct column whose
/// columns are of exactly the types of the struct's fields, and in turn well made;
/// or a column of another type that passes the checks.
pub open spec fn well_made(column: ColumnModel) -> bool
    decreases column,
{
    match column.data_type {
        TypeModel::Flat(_) => true,
        TypeModel::Struct(fields) => match column.children {
            Some(children) => {
                &&& children.len() == fields.len()
                &&& forall|i: int|
                    #![trigger children[i]]
                    0 <= i < children.len() ==> {
                        &&& children[i].data_type == fields[i].data_type
                        &&& well_made(children[i])
                    }
            },
            None => false,
        },
        TypeModel::Masked(_) => (column.rebuilds)(own_bits(column)),
        TypeModel::Bare(_) => (column.rebuilds)(
            column.rows.map_values(|value: Option<Seq<u8>>| true),
        ),
    }
}

/// Arrow builds the column anew with a null buffer of these bits: not if a row is
/// to be null and the type cannot carry a null buffer; otherwise if the column is
/// well made, or at least passes the checks with these bits.
pub open spec fn builds(column: ColumnModel, bits: Seq<bool>) -> bool {
    if column.data_type is Bare && bits.contains(false) {
        false
    } else {
        well_made(column) || (column.rebuilds)(bits)
    }
}

/// The column with a null buffer of these bits in place of its own.
pub open spec fn masked(column: ColumnModel, bits: Seq<bool>) -> ColumnModel {
    ColumnModel {
        rows: Seq::new(
            column.rows.len(),
            |row: int|
                if bits[row] {
                    column.rows[row]
                } else {
                    None
                },
        ),
        marks_nulls: bits.contains(false),
        ..column
    }
}

/// These columns fit these fields: one each, nested alike, all of one length.
pub open spec fn columns_fit(fields: Seq<FieldModel>, columns: Seq<ColumnModel>) -> bool {
    &&& columns.len() == fields.len()
    &&& forall|i: int|
        #![trigger columns[i]]
        0 <= i < columns.len() ==> {
            &&& same_shape(fields[i].data_type, columns[i].data_type)
            &&& column_consistent(columns[i])
            &&& columns[i].rows.len() == columns[0].rows.len()
        }
}

/// A record batch can be made of this schema and these columns: at least one
/// column, one for each field and of its type, all of one length, and no null
/// marked where the field does not allow it.
pub open spec fn batch_accepts(schema: SchemaModel, columns: Seq<ColumnModel>) -> bool {
    &&& columns.len() == schema.fields.len()
    &&& columns.len() > 0
    &&& forall|i: int|
        #![trigger columns[i]]
        0 <= i < columns.len() ==> {
            &&& schema.fields[i].nullable || !columns[i].marks_nulls
            &&& columns[i].rows.len() == columns[0].rows.len()
            &&& columns[i].data_type == schema.fields[i].data_type
        }
}

} // verus!
