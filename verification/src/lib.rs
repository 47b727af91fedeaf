pub mod backing_store;
pub mod database_abstraction_layer;
pub mod database_session_store;
pub mod db_tables;
pub mod entity;
pub mod error;
pub mod external_system;
pub mod laws;
pub mod text;
pub mod util;
