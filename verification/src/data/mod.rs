pub mod init_id;

pub use init_id::InitId;
