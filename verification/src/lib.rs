pub mod database;
pub mod errors;
pub mod memtable;
pub mod ops;
pub mod order;
pub mod segment;
pub mod snapshot;
pub mod values;

pub use database::Database;
pub use database::TableEntry;
pub use errors::DbError;
pub use memtable::MemEntry;
pub use memtable::Memtable;
pub use memtable::RowState;
pub use ops::RowOperation;
pub use ops::RowOperationType;
pub use ops::UpdateValue;
pub use segment::Segment;
pub use segment::SegmentRecord;
pub use segment::SegmentStore;
pub use segment::SegmentValue;
pub use snapshot::ColumnEntry;
pub use snapshot::RowSnapshot;
pub use snapshot::fold_operations;
pub use values::ColumnDefinition;
pub use values::DataType;
pub use values::DataValue;
pub use values::NamedColumn;
pub use values::TableSchema;
