pub mod sema;
pub mod tree;
pub mod walk;
pub mod binds;
