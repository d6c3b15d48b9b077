# record_batch_projector

Projection of columns, nested ones included, out of Arrow record batches,
written and proved in Verus.

A `RecordBatchProjector` is built from a schema and a list of field ids or of
dot-separated field names. It holds, for each requested field, the positions that
lead to it (its own first, that of the top-level field last) and the schema of
what is projected. Projecting takes the columns at these positions and makes a
row null wherever any struct on the way is null.

- `schema`: schemas as trees of fields, and the field id in a field's metadata
- `lookup`: what searches by id and by name find, and the laws of the two searches
- `columns`: what it means to project a column along a path
- `fit`: how fields found in a batch's schema and the batch's columns go together
- `reorder`: what a lookup of columns does not depend on
- `projector`: the projector
- `contents`: Arrow's values as mathematical ones
- `outside`: the calls into Arrow and Parquet, with what is relied on of each
- `text`, `error`: numbers and names as text, and the error type
