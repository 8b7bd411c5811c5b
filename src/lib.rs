pub mod seq_facts;
pub mod text;
pub mod parser;
pub mod model;
pub mod order;
pub mod matcher;
pub mod amount;
pub mod formatter;
