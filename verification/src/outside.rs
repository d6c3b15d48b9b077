//! The calls into Arrow and Parquet, with what is relied on of each.

use std::sync::Arc;

use arrow_array::Array;
use arrow_buffer::NullBuffer;
use vstd::prelude::*;

use crate::contents::{
    batch_accepts, bits_cover, builds, columns_fit, field_id_key, masked, own_bits, BatchModel,
    ColumnModel, FieldModel, SchemaModel, TypeModel,
};

verus! {

/// `arrow_schema::Field`.
#[verifier::external_type_specification]
#[verifier::external_body]
pub struct ExField(arrow_schema::Field);

/// `arrow_schema::Schema`.
#[verifier::external_type_specification]
#[verifier::external_body]
pub struct ExSchema(arrow_schema::Schema);

/// `arrow_buffer::NullBuffer`.
#[verifier::external_type_specification]
#[verifier::external_body]
pub struct ExNullBuffer(arrow_buffer::NullBuffer);

/// A column: an Arrow array of any type, behind a shared pointer.
///
/// Two things are taken for granted of every array, as Arrow asks them of whoever
/// makes one: its null buffer, if it has one, is as long as the array; and no length
/// in it was computed with an overflow.
#[derive(Debug)]
#[verifier::external_body]
pub struct Column {
    pub array: arrow_array::ArrayRef,
}

/// A record batch of Arrow. Of its columns the same is taken for granted as of a
/// `Column`.
#[derive(Debug)]
#[verifier::external_body]
pub struct Batch {
    pub batch: arrow_array::RecordBatch,
}

/// What a field holds.
pub uninterp spec fn field_model(field: arrow_schema::Field) -> FieldModel;

/// What a schema holds.
pub uninterp spec fn schema_model(schema: arrow_schema::Schema) -> SchemaModel;

/// What a record batch holds.
pub uninterp spec fn batch_model(batch: Batch) -> BatchModel;

/// What a column holds.
pub uninterp spec fn column_model(column: Column) -> ColumnModel;

/// What a null buffer holds: for each row, whether it is valid (not null).
pub uninterp spec fn null_bits(nulls: arrow_buffer::NullBuffer) -> Seq<bool>;

/// The text that an Arrow error is shown as.
pub uninterp spec fn arrow_error_text(error: arrow_schema::ArrowError) -> Seq<char>;

/// What Arrow says of a schema and columns that make no record batch.
pub uninterp spec fn batch_refusal(schema: SchemaModel, columns: Seq<ColumnModel>) -> Seq<char>;

/// What fields hold, in order.
pub open spec fn field_models(fields: Seq<Arc<arrow_schema::Field>>) -> Seq<FieldModel> {
    fields.map_values(|field: Arc<arrow_schema::Field>| field_model(*field))
}

/// What columns hold, in order.
pub open spec fn column_models(columns: Seq<Column>) -> Seq<ColumnModel> {
    columns.map_values(|column: Column| column_model(column))
}

/// Whether a row is valid under a null buffer; without a buffer every row is.
pub open spec fn row_valid(nulls: Option<NullBuffer>, row: int) -> bool {
    match nulls {
        Some(buffer) => null_bits(buffer)[row],
        None => true,
    }
}

/// The validity of this many rows under a null buffer.
pub open spec fn null_mask(nulls: Option<NullBuffer>, len: nat) -> Seq<bool> {
    Seq::new(len, |row: int| row_valid(nulls, row))
}

/// A null buffer, if there is one, has this many rows.
pub open spec fn nulls_len(nulls: Option<NullBuffer>, len: nat) -> bool {
    nulls matches Some(buffer) ==> null_bits(buffer).len() == len
}

/// `Arc::clone`: another pointer to the same value.
#[verifier::external_body]
pub(crate) fn share<T>(pointer: &Arc<T>) -> (other: Arc<T>)
    ensures
        other == *pointer,
{
    pointer.clone()
}

/// `arrow_schema::Field::name`: the field's name.
#[verifier::external_body]
pub(crate) fn field_name(field: &arrow_schema::Field) -> (name: String)
    ensures
        name@ == field_model(*field).name,
{
    field.name().clone()
}

/// `arrow_schema::Field::metadata` and `arrow_schema::Metadata::get`: the value
/// that the field's metadata has under a key, if it has the key.
#[verifier::external_body]
pub(crate) fn field_metadata(field: &arrow_schema::Field, key: &str) -> (value: Option<String>)
    ensures
        match value {
            Some(value) => field_model(*field).metadata.contains_key(key@) && field_model(
                *field,
            ).metadata[key@] == value@,
            None => !field_model(*field).metadata.contains_key(key@),
        },
{
    field.metadata().get(key).cloned()
}

/// `arrow_schema::Field::data_type`: the fields of the struct, in order, if the
/// data type is a struct.
#[verifier::external_body]
pub(crate) fn struct_fields(field: &arrow_schema::Field) -> (fields: Option<
    Vec<Arc<arrow_schema::Field>>,
>)
    ensures
        match field_model(*field).data_type {
            TypeModel::Struct(models) => fields is Some && field_models(fields->Some_0@) == models,
            _ => fields is None,
        },
{
    match field.data_type() {
        arrow_schema::DataType::Struct(fields) => Some(fields.to_vec()),
        _ => None,
    }
}

/// `arrow_schema::Schema::fields`: the fields in order.
#[verifier::external_body]
pub(crate) fn schema_fields(schema: &arrow_schema::Schema) -> (fields: Vec<
    Arc<arrow_schema::Field>,
>)
    ensures
        field_models(fields@) == schema_model(*schema).fields,
{
    schema.fields().to_vec()
}

/// `arrow_schema::Schema::new`: a schema of these fields, without metadata.
#[verifier::external_body]
pub(crate) fn new_schema(fields: Vec<Arc<arrow_schema::Field>>) -> (schema: arrow_schema::Schema)
    ensures
        schema_model(schema) == (SchemaModel {
            fields: field_models(fields@),
            metadata: Map::empty(),
        }),
{
    arrow_schema::Schema::new(fields)
}

/// `parquet::arrow::PARQUET_FIELD_ID_META_KEY`: the key under which a field's id
/// is kept.
#[verifier::external_body]
pub(crate) fn parquet_field_id_key() -> (key: &'static str)
    ensures
        key@ == field_id_key(),
{
    parquet::arrow::PARQUET_FIELD_ID_META_KEY
}

/// `arrow_array::RecordBatch::schema`: the batch's schema.
#[verifier::external_body]
pub(crate) fn batch_schema(batch: &Batch) -> (schema: Arc<arrow_schema::Schema>)
    ensures
        schema_model(*schema) == batch_model(*batch).schema,
{
    batch.batch.schema()
}

/// `arrow_array::RecordBatch::columns`: the batch's columns in order. Every way
/// to make a batch sees to it that they fit its schema: one column for each
/// field, all of one length. Structs are nested alike in the schema, in the types
/// of the columns and in the columns themselves, and what is of a flat type in
/// one is of that type in the others; names, metadata and nullability of nested
/// fields may differ.
#[verifier::external_body]
pub(crate) fn batch_columns(batch: &Batch) -> (columns: Vec<Column>)
    ensures
        column_models(columns@) == batch_model(*batch).columns,
        columns_fit(batch_model(*batch).schema.fields, column_models(columns@)),
{
    batch.batch.columns().iter().map(|array| Column { array: array.clone() }).collect()
}

/// `arrow_array::RecordBatch::try_new`: a batch of exactly this schema and these
/// columns if they make one, and an error if they do not. What the error is shown
/// as depends on the fields and on the columns' types, lengths and nulls alone.
#[verifier::external_body]
pub(crate) fn try_new_batch(schema: Arc<arrow_schema::Schema>, columns: Vec<Column>) -> (made:
    Result<Batch, arrow_schema::ArrowError>)
    ensures
        match made {
            Ok(batch) => batch_accepts(schema_model(*schema), column_models(columns@))
                && batch_model(batch) == (BatchModel {
                schema: schema_model(*schema),
                columns: column_models(columns@),
            }),
            Err(error) => !batch_accepts(schema_model(*schema), column_models(columns@))
                && arrow_error_text(error) == batch_refusal(
                schema_model(*schema),
                column_models(columns@),
            ),
        },
{
    let arrays = columns.into_iter().map(|column| column.array).collect();
    Ok(Batch { batch: arrow_array::RecordBatch::try_new(schema, arrays)? })
}

/// The `Display` of `arrow_schema::ArrowError`, as a string.
#[verifier::external_body]
pub(crate) fn write_arrow_error(error: &arrow_schema::ArrowError) -> (text: String)
    ensures
        text@ == arrow_error_text(*error),
{
    format!("{error}")
}

/// `arrow_buffer::NullBuffer::union`: a row is valid in the outcome if it is
/// valid in both. Where both buffers are given they must be of one length.
pub assume_specification[ arrow_buffer::NullBuffer::union ](
    lhs: Option<&NullBuffer>,
    rhs: Option<&NullBuffer>,
) -> (both: Option<NullBuffer>)
    requires
        lhs is Some && rhs is Some ==> null_bits(*lhs->Some_0).len() == null_bits(
            *rhs->Some_0,
        ).len(),
    ensures
        forall|len: nat|
            #![trigger nulls_len(both, len)]
            (lhs matches Some(left) ==> null_bits(*left).len() == len) && (rhs matches Some(right)
                ==> null_bits(*right).len() == len) ==> {
                &&& nulls_len(both, len)
                &&& forall|row: int|
                    #![trigger row_valid(both, row)]
                    0 <= row < len ==> row_valid(both, row) == ((lhs matches Some(left)
                        ==> null_bits(*left)[row]) && (rhs matches Some(right) ==> null_bits(
                        *right,
                    )[row]))
            },
;

impl Column {
    /// `Arc::clone` of the array: the same column.
    #[verifier::external_body]
    pub(crate) fn share(&self) -> (other: Column)
        ensures
            other == *self,
    {
        Column { array: self.array.clone() }
    }

    /// `arrow_array::Array::logical_nulls`: a null buffer that is as long as the
    /// column and marks the rows that hold nothing; or none, and then every row
    /// holds a value.
    #[verifier::external_body]
    pub(crate) fn logical_nulls(&self) -> (nulls: Option<NullBuffer>)
        ensures
            nulls_len(nulls, column_model(*self).rows.len()),
            null_mask(nulls, column_model(*self).rows.len()) == own_bits(column_model(*self)),
    {
        self.array.logical_nulls()
    }

    /// `arrow_array::Array::as_any` taken for an `arrow_array::StructArray`, and
    /// `StructArray::num_columns`: how many columns a struct column has; nothing
    /// if this is no struct column.
    #[verifier::external_body]
    pub(crate) fn struct_width(&self) -> (width: Option<usize>)
        ensures
            match column_model(*self).children {
                Some(children) => width is Some && width->Some_0 == children.len(),
                None => width is None,
            },
    {
        let array = self.array.as_any().downcast_ref::<arrow_array::StructArray>()?;
        Some(array.num_columns())
    }

    /// `arrow_array::Array::as_any` taken for an `arrow_array::StructArray`, and
    /// `StructArray::column`: the column at a position of a struct column, as
    /// long as the struct column itself; nothing if this is no struct column.
    /// The position must be one that the struct column has.
    #[verifier::external_body]
    pub(crate) fn struct_column(&self, index: usize) -> (child: Option<Column>)
        requires
            column_model(*self).children matches Some(children) ==> index < children.len(),
        ensures
            match column_model(*self).children {
                Some(children) => child is Some && column_model(child->Some_0)
                    == children[index as int] && column_model(child->Some_0).rows.len()
                    == column_model(*self).rows.len(),
                None => child is None,
            },
    {
        let array = self.array.as_any().downcast_ref::<arrow_array::StructArray>()?;
        Some(Column { array: array.column(index).clone() })
    }

    /// `arrow_data::ArrayDataBuilder::nulls` and `build`, on the column's data
    /// (`Array::to_data`, `ArrayData::into_builder`), made a column again
    /// (`arrow_array::make_array`): the column with another null buffer, which
    /// must be null in every row that holds nothing. Nothing but the null buffer
    /// changes; without a buffer it is as if one marked every row as valid.
    ///
    /// `build` refuses a null in a column of a type that cannot carry a null
    /// buffer, and data that does not pass its checks. Of values of one width it
    /// checks the length and alignment of the buffer, which arrays keep. Of a
    /// struct it checks the columns below, their types against what the struct's
    /// type says, and that no value is missing where a field allows none; more
    /// nulls in the struct itself can only make that true. Of anything else it
    /// checks offsets, sizes, views, dictionary keys and text as well, and these
    /// are not valid in every array that can be made: a list view made of a long
    /// fixed-size list may have offsets that wrapped. There a column passes if it
    /// passes with its own nulls, as more nulls take nothing away; and whether it
    /// does is a fact about the column.
    #[verifier::external_body]
    pub(crate) fn with_nulls(&self, nulls: Option<NullBuffer>) -> (made: Result<
        Column,
        arrow_schema::ArrowError,
    >)
        requires
            nulls_len(nulls, column_model(*self).rows.len()),
            bits_cover(
                column_model(*self),
                null_mask(nulls, column_model(*self).rows.len()),
            ),
        ensures
            match made {
                Ok(column) => {
                    let bits = null_mask(nulls, column_model(*self).rows.len());
                    &&& builds(column_model(*self), bits)
                    &&& column_model(column) == masked(column_model(*self), bits)
                },
                Err(_) => !builds(
                    column_model(*self),
                    null_mask(nulls, column_model(*self).rows.len()),
                ),
            },
    {
        let builder = self.array.to_data().into_builder().nulls(nulls);
        Ok(Column { array: arrow_array::make_array(builder.build()?) })
    }
}

} // verus!
