pub mod init_context;
pub mod init_storage;
pub mod laws;
pub mod model;

pub use init_context::InitContext;
pub use init_storage::{InitStorage, PendingAdditionKey, Removal};
