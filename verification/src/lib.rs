//! A log-structured key-value store: the storage engine's rules, verified.

pub mod client;
pub mod codec;
pub mod common;
pub mod engine_kind;
pub mod engines;
pub mod errors;
pub mod index;
pub mod laws;
pub mod model;
pub mod reader;
pub mod recovery;
pub mod segment;
pub mod server;
pub mod store;
pub mod text;
pub mod thread_pool;
pub mod writer;

pub use common::{Command, Response};
pub use engine_kind::Engine;
pub use engines::KvsEngine;
pub use errors::KvsError;
pub use index::{CommandPos, Index};
pub use reader::KvReader;
pub use segment::{get_sorted_file_list, log_path};
pub use store::{intialise_mem_map, KvStore, Segment};
pub use thread_pool::{RayonThreadPool, SharedQueueThreadPool, ThreadPool};
pub use writer::KvWriter;
