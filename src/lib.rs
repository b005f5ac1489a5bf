use vstd::prelude::*;

pub mod embeddings;
pub mod error;
pub mod index;
pub mod metric;
pub mod store;
pub mod text_splitters;

pub use embeddings::{EmbeddingModel, EmbeddingRouter};
pub use error::IndexError;
pub use index::{Document, Fragment, Index, IndexConfig, IndexManager, SearchResult};
pub use metric::{MetricKind, COMPONENT_LIMIT, DIM_LIMIT};
pub use store::{InMemoryStore, VectorRecord};
pub use text_splitters::{split_lines, TextSplitterKind};

verus! {

} // verus!
