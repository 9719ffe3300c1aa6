pub mod arena;
pub mod image;
pub mod key;
pub mod layout;
pub mod pipe;
pub mod query;
pub mod tree;
pub mod widget_id;
