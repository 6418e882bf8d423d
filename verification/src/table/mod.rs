pub mod chunked_node_group;
pub mod column;
pub mod edge;
pub mod edge_list;
pub mod format_laws;
pub mod group_laws;
pub mod node;
pub mod row;
pub mod row_laws;
