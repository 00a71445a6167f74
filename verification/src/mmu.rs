pub mod addr_parts;
pub mod entry;
pub mod error;
pub mod l2entry;
pub mod page;
pub mod page_permission;
pub mod translation_table;
pub mod page_table;
pub mod per_cpu;
