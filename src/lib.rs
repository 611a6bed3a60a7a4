//! A read-only reader for single-file relational database images in the
//! SQLite page format: varints, records, table B-trees, the schema catalog
//! and a small SELECT front end. Every function works on the bytes of the
//! whole file, which the caller reads.

pub mod btree;
pub mod catalog;
pub mod error;
pub mod page;
pub mod query;
pub mod record;
pub mod sql_parser;
pub mod sqlite_schema;
pub mod varint;

pub use btree::scan_table;
pub use catalog::{count_table_rows, get_table_name_to_schema_map, get_tables};
pub use error::DbError;
pub use page::{page_size_from_header, read_page};
pub use query::{get_records_from_table, run_select, QueryResult};
pub use record::{parse_records, RecordField};
pub use sql_parser::{parse_create_table, parse_select_statement, SelectStatement, Selector};
pub use sqlite_schema::SqliteSchema;
pub use varint::read_varint;
