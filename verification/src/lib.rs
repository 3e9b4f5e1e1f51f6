//! Editor-completion aggregator: keyword-boundary parsing, per-buffer word
//! indexing, fuzzy scoring and ranking, and the orchestration state that
//! cancels superseded completion cycles.

pub mod collections;
pub mod completor;
pub mod context;
pub mod entry;
pub mod host;
pub mod iskeyword;
pub mod score;
pub mod source;
pub mod sources;
pub mod text;

pub use collections::LineRange;
pub use completor::Completor;
pub use context::{CompletionContext, SourceContext};
pub use entry::Entry;
pub use score::Score;
