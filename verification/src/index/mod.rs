pub mod page_index;
