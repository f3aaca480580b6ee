pub mod fetch;
pub mod alias;
pub mod query;
pub mod system;
