//! A fixed-size page storage engine: fixed-width key/value pages, a buffer
//! pool that maps (container, page) addresses to in-memory frames, heap and
//! hash-index files built on the pool, and a two-phase lock manager.
pub mod buffer_frame;
pub mod buffer_pool;
pub mod error;
pub mod fixed_page;
pub mod heap_file;
pub mod heap_page;
pub mod ids;
pub mod index_file;
pub mod lock_manager;
pub mod prelude;
pub mod storage_manager;
pub mod test_support;
pub mod test_util;
