pub mod coerce;
pub mod laws;
pub mod reader;
pub mod schema;
pub mod tag;
pub mod tree;
pub mod value;
pub mod writer;
