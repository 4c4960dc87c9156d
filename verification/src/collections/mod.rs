pub mod index_set;
pub mod min_heap;
