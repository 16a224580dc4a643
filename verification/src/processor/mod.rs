pub mod query_processor;
pub mod query_plan;
pub mod boolean_query;
