pub mod format;
pub mod format_utils;
pub mod graph_index;
pub mod graph_file;
pub mod index_files;
pub mod key;
pub mod level_layout;
pub mod memory;
pub mod memory_manager;
pub mod neighbor_diff;
pub mod node;
pub mod node_id;
pub mod prefetch;
pub mod skiplist;
pub mod tape;
pub mod tape_mutations;
