pub mod store;
pub mod store_file;
pub mod transaction_store;
pub mod transaction_store_backend;
pub mod transaction_store_backend_trait;
