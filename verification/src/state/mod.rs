pub mod command_laws;
pub mod database;
pub mod database_laws;
pub mod edge_laws;
pub mod edge_meaning;
pub mod edge_persistence;
pub mod edge_records;
pub mod edge_store;
pub mod edge_table;
pub mod metadata;
pub mod node_laws;
pub mod node_meaning;
pub mod node_persistence;
pub mod node_records;
pub mod node_store;
pub mod node_table;
pub mod recovery;
pub mod store_laws;
