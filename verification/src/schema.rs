//! Schemas as trees of fields that can be searched.

use std::sync::Arc;

use vstd::prelude::*;

use crate::contents::{field_id_text, FieldModel, TypeModel};
use crate::error::{Error, ErrorKind, ErrorView, Source, SourceKind};
use crate::outside::{
    field_metadata, field_model, field_models, field_name, parquet_field_id_key, schema_fields,
    schema_model, share, struct_fields,
};
use crate::text::{parse_i64, parsed_i64};

verus! {

/// A field: what a search reads of it, and the Arrow field it stands for.
#[derive(Debug)]
pub struct FieldNode {
    /// The field's name.
    pub name: String,
    /// The field id kept in the field's metadata, as text, if there is one.
    pub field_id: Option<String>,
    /// The fields of the struct, if the field is a struct.
    pub children: Option<Vec<Arc<FieldNode>>>,
    /// The Arrow field.
    pub arrow: Arc<arrow_schema::Field>,
}

/// A schema: its fields in order.
#[derive(Debug)]
pub struct SchemaTree {
    pub fields: Vec<Arc<FieldNode>>,
}

impl FieldNode {
    /// The node says of its Arrow field what that field holds, and so do the
    /// nodes below it.
    pub open spec fn mirrors(self, model: FieldModel) -> bool
        decreases self,
    {
        &&& field_model(*self.arrow) == model
        &&& self.name@ == model.name
        &&& match self.field_id {
            Some(text) => field_id_text(model) == Some(text@),
            None => field_id_text(model) is None,
        }
        &&& match (self.children, model.data_type) {
            (Some(children), TypeModel::Struct(fields)) => {
                &&& children@.len() == fields.len()
                &&& forall|i: int|
                    #![trigger children@[i]]
                    0 <= i < children@.len() ==> children@[i].mirrors(fields[i])
            },
            (Some(_), _) => false,
            (None, data_type) => !(data_type is Struct),
        }
    }

    /// The tree of an Arrow field.
    pub fn from_arrow(arrow: &Arc<arrow_schema::Field>) -> (node: Arc<FieldNode>)
        ensures
            node.arrow == *arrow,
            node.mirrors(field_model(**arrow)),
            node.name@ == field_model(**arrow).name,
            match node.field_id {
                Some(text) => field_model(**arrow).metadata.contains_pair(
                    "PARQUET:field_id"@,
                    text@,
                ),
                None => !field_model(**arrow).metadata.contains_key("PARQUET:field_id"@),
            },
            match field_model(**arrow).data_type {
                TypeModel::Struct(fields) => node.children matches Some(children)
                    && children@.len() == fields.len() && forall|i: int|
                    #![trigger children@[i]]
                    0 <= i < fields.len() ==> children@[i].mirrors(fields[i]),
                _ => node.children is None,
            },
        decreases field_model(**arrow),
    {
        let name = field_name(arrow);
        let field_id = field_metadata(arrow, parquet_field_id_key());
        let children = match struct_fields(arrow) {
            Some(fields) => {
                let mut children: Vec<Arc<FieldNode>> = Vec::new();
                let ghost models = field_models(fields@);
                assert(field_model(**arrow).data_type == TypeModel::Struct(models));
                let mut i: usize = 0;
                while i < fields.len()
                    invariant
                        i <= fields.len(),
                        models == field_models(fields@),
                        field_model(**arrow).data_type == TypeModel::Struct(models),
                        children@.len() == i,
                        forall|k: int|
                            #![trigger children@[k]]
                            0 <= k < i ==> children@[k].mirrors(models[k]),
                    decreases fields.len() - i,
                {
                    proof {
                        assert(field_model(*fields@[i as int]) == models[i as int]);
                        assert(decreases_to!(field_model(**arrow) => field_model(**arrow).data_type));
                        assert(decreases_to!(field_model(**arrow).data_type =>
                            field_model(**arrow).data_type->Struct_0));
                        assert(decreases_to!(models => models[i as int]));
                    }
                    children.push(FieldNode::from_arrow(&fields[i]));
                    i = i + 1;
                }
                Some(children)
            },
            None => None,
        };
        Arc::new(FieldNode { name, field_id, children, arrow: share(arrow) })
    }
}

/// What the Arrow field behind a node holds.
pub open spec fn model_of(field: Arc<FieldNode>) -> FieldModel {
    field_model(*field.arrow)
}

/// Trees that mirror these fields, in order.
pub open spec fn trees_mirror(trees: Seq<Arc<FieldNode>>, models: Seq<FieldModel>) -> bool {
    &&& trees.len() == models.len()
    &&& forall|i: int| #![trigger trees[i]] 0 <= i < trees.len() ==> trees[i].mirrors(models[i])
}

impl SchemaTree {
    /// The tree of an Arrow schema.
    pub fn from_arrow(schema: &arrow_schema::Schema) -> (tree: SchemaTree)
        ensures
            trees_mirror(tree.fields@, schema_model(*schema).fields),
            tree.fields@.len() == schema_model(*schema).fields.len(),
            forall|i: int|
                #![trigger tree.fields@[i]]
                0 <= i < tree.fields@.len() ==> tree.fields@[i].mirrors(
                    schema_model(*schema).fields[i],
                ),
    {
        let arrow = schema_fields(schema);
        let mut fields: Vec<Arc<FieldNode>> = Vec::new();
        let ghost models = schema_model(*schema).fields;
        let mut i: usize = 0;
        while i < arrow.len()
            invariant
                i <= arrow.len(),
                field_models(arrow@) == models,
                fields@.len() == i,
                forall|k: int|
                    #![trigger fields@[k]]
                    0 <= k < i ==> fields@[k].mirrors(models[k]),
            decreases arrow.len() - i,
        {
            assert(field_model(*arrow@[i as int]) == models[i as int]);
            fields.push(FieldNode::from_arrow(&arrow[i]));
            i = i + 1;
        }
        SchemaTree { fields }
    }
}

/// What a field answers when asked for its id: the id, nothing, or an error.
pub open spec fn answer_view(answer: Result<Option<i64>, Error>) -> Result<
    Option<i64>,
    ErrorView,
> {
    match answer {
        Ok(id) => Ok(id),
        Err(error) => Err(error@),
    }
}

/// The error for a field id that is no number.
pub open spec fn unparsable_id(text: Seq<char>) -> ErrorView {
    ErrorView::plain(ErrorKind::DataInvalid, "Failed to parse field id"@).with_context(
        "value"@,
        text,
    ).with_source(SourceKind::ParseInt)
}

/// The id kept in a field's metadata: none if there is no entry for it, an error
/// if the entry is not the decimal text of an `i64`.
pub open spec fn metadata_id(field: FieldNode) -> Result<Option<i64>, ErrorView> {
    match field.field_id {
        None => Ok(None),
        Some(text) => match parsed_i64(text@) {
            Some(id) => Ok(Some(id)),
            None => Err(unparsable_id(text@)),
        },
    }
}

/// Reads the field id out of `field`'s metadata, parsing it as `i64`.
///
/// The answer is `Ok(None)` if there is no field-id metadata, and an error if
/// there is some but it does not parse.
pub fn parquet_field_id(field: &FieldNode) -> (answer: Result<Option<i64>, Error>)
    ensures
        answer_view(answer) == metadata_id(*field),
        match field.field_id {
            None => answer matches Ok(None),
            Some(text) => match parsed_i64(text@) {
                Some(id) => answer == Ok::<Option<i64>, Error>(Some(id)),
                None => answer matches Err(error) && error.kind == ErrorKind::DataInvalid
                    && error.message@ == "Failed to parse field id"@ && error.context@.len() == 1
                    && error.context@[0].0@ == "value"@ && error.context@[0].1@ == text@
                    && error.source matches Some(Source::ParseInt(_)),
            },
        },
{
    let value = match &field.field_id {
        Some(value) => value,
        None => {
            return Ok(None);
        },
    };
    match parse_i64(value.as_str()) {
        Ok(id) => Ok(Some(id)),
        Err(source) => {
            let error = Error::new(ErrorKind::DataInvalid, "Failed to parse field id").with_context(
                "value",
                value.as_str(),
            ).with_source(Source::ParseInt(source));
            assert(error.context@.last() == error.context@[0]);
            Err(error)
        },
    }
}

} // verus!
