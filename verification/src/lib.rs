pub mod laws;
pub mod mapper;
pub mod pipeline;
pub mod records;
pub mod store;
pub mod value;
