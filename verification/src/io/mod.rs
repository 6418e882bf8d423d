pub mod binary;
pub mod codec;
pub mod header;
pub mod page;
