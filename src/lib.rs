use vstd::prelude::*;

pub mod value;
pub mod row;
pub mod error;
pub mod schema;
pub mod meta;
pub mod validate;
pub mod tokenize;
pub mod storage;
pub mod laws;
pub mod columnar;
pub mod column_engine;
pub mod engine;

verus! {

} // verus!
