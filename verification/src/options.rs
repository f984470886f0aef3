//! The options of the serializer.

use vstd::prelude::*;
use crate::element::QualName;

verus! {

/// Which part of a tree the serializer is to write.
#[derive(Debug)]
pub enum TraversalScope {
    /// A node and what it holds.
    IncludeNode,
    /// What a node holds, the node itself being left out; the name, if one is
    /// given, is taken for the name of that node.
    ChildrenOnly(Option<QualName>),
}

/// The options that a serializer is made with.
#[derive(Debug)]
pub struct SerializeOpts {
    pub scripting_enabled: bool,
    pub traversal_scope: TraversalScope,
    pub create_missing_parent: bool,
}

impl Default for SerializeOpts {
    /// Scripting enabled, the children of a nameless root, no missing parent
    /// made up.
    fn default() -> (opts: Self)
        ensures
            opts.scripting_enabled,
            opts.traversal_scope == TraversalScope::ChildrenOnly(None),
            !opts.create_missing_parent,
    {
        SerializeOpts {
            scripting_enabled: true,
            traversal_scope: TraversalScope::ChildrenOnly(None),
            create_missing_parent: false,
        }
    }
}

/// The name that the serializer takes for the parent of the outermost nodes.
pub open spec fn root_name(opts: SerializeOpts) -> Option<Seq<char>> {
    match opts.traversal_scope {
        TraversalScope::ChildrenOnly(Some(name)) => Some(name@.local),
        _ => None,
    }
}

} // verus!
