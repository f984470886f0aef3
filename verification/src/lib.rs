//! Streams a markup tree through a pipeline of context-aware stages.
//!
//! A tree builder drives a [`ParseTraverser`], which turns its append-only
//! mutation calls into a linear stream of events. Every event carries the path
//! of its open ancestors. Stages that implement [`HtmlSink`] remove, skip or
//! extract parts of that stream, and a [`HtmlSerializer`] at the end writes it
//! out as markup again.

pub mod collector;
pub mod element;
pub mod event;
pub mod markup;
pub mod options;
pub mod remover;
pub mod root_filter;
pub mod selector;
pub mod serializer;
pub mod sink;
pub mod skipper;
pub mod traverser;

pub use collector::{Event, EventCollector};
pub use element::{
    Attribute, AttributeView, ElementView, HtmlContext, HtmlPathElement, QualName, QualNameView,
};
pub use event::SinkEvent;
pub use options::{SerializeOpts, TraversalScope};
pub use remover::ElementRemover;
pub use root_filter::RootFilter;
pub use selector::{ClassSelector, ContextualSelector, NameSelector, Selector};
pub use serializer::HtmlSerializer;
pub use sink::HtmlSink;
pub use skipper::ElementSkipper;
pub use traverser::{AppendError, NodeOrText, ParseTraverser, TraversalElement};
