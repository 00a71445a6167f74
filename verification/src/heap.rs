pub mod block;
pub mod free_list;
pub mod kern_allocator;
pub mod kern_heap;
