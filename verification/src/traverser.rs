//! The adapter between a tree builder and the stream.
//!
//! A tree builder creates nodes, which get handles, and appends them below
//! parents that it names by handle. The adapter keeps the created nodes until
//! they are appended, and the path of the elements that are open. An append
//! below a parent closes what stands below that parent on the path, and
//! reports the child to the sink with the path as its context.

use std::collections::HashMap;
use vstd::prelude::*;
use vstd::string::StringExecFns;
use crate::element::{
    Attribute, ElementView, HtmlPathElement, QualName, attrs_text, attrs_view, clone_attrs,
    decimal, decimal_text, describe_attrs, distinct_handles, has_handle, lemma_place_of,
    path_view, place_of,
};
use crate::event::{SinkEvent, lemma_well_formed_push, open_path};
use crate::sink::HtmlSink;

verus! {

broadcast use vstd::std_specs::hash::group_hash_axioms;

/// An element on the open path, or one that waits to be appended.
#[derive(Debug)]
pub struct TraversalElement {
    pub handle: u32,
    pub name: QualName,
    pub attrs: Vec<Attribute>,
}

impl View for TraversalElement {
    type V = ElementView;

    open spec fn view(&self) -> ElementView {
        ElementView { handle: self.handle, name: self.name@, attrs: attrs_view(self.attrs@) }
    }
}

impl TraversalElement {
    /// The element as the stream reports it.
    pub fn as_html_path_element(&self) -> (element: HtmlPathElement)
        ensures
            element@ == self@,
    {
        HtmlPathElement {
            handle: self.handle,
            name: self.name.clone(),
            attrs: clone_attrs(&self.attrs),
        }
    }
}

/// The description of an element of the adapter: `#`, the handle, `: <`, the
/// local name, the attributes and `>`.
pub open spec fn traversal_description(element: ElementView) -> Seq<char> {
    "#"@ + decimal(element.handle) + ": <"@ + element.name.local + attrs_text(element.attrs)
        + ">"@
}

impl TraversalElement {
    /// The element in a line of text, for messages.
    pub fn describe(&self) -> (text: String)
        ensures
            text@ == traversal_description(self@),
    {
        let mut text = "#".to_owned();
        text.append(decimal_text(self.handle).as_str());
        text.append(": <");
        text.append(self.name.local.as_str());
        describe_attrs(&mut text, &self.attrs);
        text.append(">");
        proof {
            assert(text@ =~= traversal_description(self@));
        }
        text
    }
}

/// A node that was created and not appended yet.
enum Node {
    Element(TraversalElement),
    Comment(String),
}

/// The mathematical value of a node that waits to be appended.
pub enum NodeView {
    Element(ElementView),
    Comment(Seq<char>),
}

impl View for Node {
    type V = NodeView;

    closed spec fn view(&self) -> NodeView {
        match self {
            Node::Element(element) => NodeView::Element(element@),
            Node::Comment(text) => NodeView::Comment(text@),
        }
    }
}

/// What a tree builder appends: a node it created, or text.
#[derive(Debug)]
pub enum NodeOrText {
    AppendNode(u32),
    AppendText(String),
}

/// Why an append was refused.
#[derive(Clone, Copy, Debug, PartialEq, Eq)]
pub enum AppendError {
    /// The parent is neither the document nor on the open path.
    UnknownParent,
    /// The child is no node that waits to be appended.
    UnknownNode,
}

/// The values of the elements of an open path, outermost first.
pub open spec fn stack_view(stack: Seq<TraversalElement>) -> Seq<ElementView> {
    stack.map_values(|e: TraversalElement| e@)
}

/// The handle that stands for the document.
pub open spec fn document() -> u32 {
    0
}

/// The open path once it has been closed down to `parent`: empty for the
/// document, else the path up to and with the parent.
pub open spec fn unwound(stack: Seq<ElementView>, parent: u32) -> Seq<ElementView> {
    if parent == document() {
        Seq::empty()
    } else {
        stack.take(place_of(stack, parent) + 1)
    }
}

/// The event that reports a node below `context`.
pub open spec fn node_event(context: Seq<ElementView>, node: NodeView) -> SinkEvent {
    match node {
        NodeView::Element(element) => SinkEvent::Element { context, element },
        NodeView::Comment(text) => SinkEvent::Comment { context, text },
    }
}

/// The open path after a node has been appended below `context`: an element
/// stays open, a comment does not.
pub open spec fn stack_with(context: Seq<ElementView>, node: NodeView) -> Seq<ElementView> {
    match node {
        NodeView::Element(element) => context.push(element),
        NodeView::Comment(_) => context,
    }
}

/// Turns the calls of a tree builder into stream events for the sink `I`.
pub struct ParseTraverser<I> {
    inner: I,
    parse_error: Option<String>,
    handle: u32,
    traversal: Vec<TraversalElement>,
    free_nodes: HashMap<u32, Node>,
}

impl<I: HtmlSink> ParseTraverser<I> {
    /// The sink that the adapter feeds.
    pub closed spec fn sink(&self) -> I {
        self.inner
    }

    /// The elements that are open, outermost first.
    pub closed spec fn open_stack(&self) -> Seq<ElementView> {
        stack_view(self.traversal@)
    }

    /// The nodes that were created and not appended yet, by handle.
    pub closed spec fn pending_nodes(&self) -> Map<u32, NodeView> {
        self.free_nodes@.map_values(|node: Node| node@)
    }

    /// The parse error that was reported first, if any was.
    pub closed spec fn latched_error(&self) -> Option<Seq<char>> {
        match self.parse_error {
            Some(message) => Some(message@),
            None => None,
        }
    }

    /// The handle that was given out last.
    pub closed spec fn last_handle(&self) -> u32 {
        self.handle
    }

    /// The invariant of the adapter: a handle is on the open path or waits to
    /// be appended, never both; no handle is on the path twice; and the path
    /// is a prefix of what the sink holds open.
    pub closed spec fn inv(&self) -> bool {
        &&& self.inner.inv()
        &&& distinct_handles(stack_view(self.traversal@))
        &&& stack_view(self.traversal@).is_prefix_of(open_path(self.inner.received()))
        &&& forall|i: int|
            0 <= i < self.traversal@.len() ==> document() < (#[trigger] self.traversal@[i]).handle
                <= self.handle
        &&& forall|handle: u32| #[trigger]
            self.free_nodes@.contains_key(handle) ==> {
                &&& document() < handle <= self.handle
                &&& !has_handle(stack_view(self.traversal@), handle)
                &&& match self.free_nodes@[handle] {
                    Node::Element(element) => element.handle == handle,
                    Node::Comment(_) => true,
                }
            }
    }

    /// What holds of every valid adapter: the sink is valid; no handle is on
    /// the open path twice; the open path is a prefix of what the sink holds
    /// open; a handle that waits is not on the open path; and the element that
    /// waits under a handle has that handle.
    pub proof fn lemma_invariant(&self, handle: u32)
        requires
            self.inv(),
        ensures
            self.sink().inv(),
            distinct_handles(self.open_stack()),
            self.open_stack().is_prefix_of(open_path(self.sink().received())),
            self.pending_nodes().contains_key(handle) ==> !has_handle(self.open_stack(), handle),
            self.pending_nodes().contains_key(handle) && self.pending_nodes()[handle] is Element
                ==> self.pending_nodes()[handle]->Element_0.handle == handle,
            self.pending_nodes().contains_key(handle) || has_handle(self.open_stack(), handle)
                ==> document() < handle <= self.last_handle(),
    {
        if self.free_nodes@.contains_key(handle) {
            assert(self.pending_nodes()[handle] == self.free_nodes@[handle]@);
        }
        if has_handle(self.open_stack(), handle) {
            let k = choose|k: int|
                0 <= k < self.open_stack().len() && (#[trigger] self.open_stack()[k]).handle
                    == handle;
            assert(self.traversal@[k].handle == handle);
        }
    }

    /// What a handle resolves to: the element on the open path that has it,
    /// else the element that waits under it.
    pub open spec fn resolved(&self, target: u32) -> Option<ElementView> {
        if has_handle(self.open_stack(), target) {
            Some(self.open_stack()[place_of(self.open_stack(), target)])
        } else if self.pending_nodes().contains_key(target) && self.pending_nodes()[target]
            is Element {
            Some(self.pending_nodes()[target]->Element_0)
        } else {
            None
        }
    }

    /// An adapter for a whole document.
    pub fn new_document(serializer: I) -> (traverser: Self)
        requires
            serializer.inv(),
        ensures
            traverser.inv(),
            traverser.sink() == serializer,
            traverser.open_stack() == Seq::<ElementView>::empty(),
            traverser.pending_nodes() == Map::<u32, NodeView>::empty(),
            traverser.latched_error() is None,
            traverser.last_handle() == 0,
    {
        let traverser = ParseTraverser {
            inner: serializer,
            parse_error: None,
            handle: 0,
            traversal: Vec::new(),
            free_nodes: HashMap::new(),
        };
        proof {
            assert(traverser.open_stack() =~= Seq::<ElementView>::empty());
            assert(traverser.pending_nodes() =~= Map::<u32, NodeView>::empty());
        }
        traverser
    }

    /// An adapter for a fragment. Its handles start at 2: handle 1 is set
    /// aside for the place the fragment stands in, which is never reported.
    pub fn new_fragment(serializer: I) -> (traverser: Self)
        requires
            serializer.inv(),
        ensures
            traverser.inv(),
            traverser.sink() == serializer,
            traverser.open_stack() == Seq::<ElementView>::empty(),
            traverser.pending_nodes() == Map::<u32, NodeView>::empty(),
            traverser.latched_error() is None,
            traverser.last_handle() == 1,
    {
        let traverser = ParseTraverser {
            inner: serializer,
            parse_error: None,
            handle: 1,
            traversal: Vec::new(),
            free_nodes: HashMap::new(),
        };
        proof {
            assert(traverser.open_stack() =~= Seq::<ElementView>::empty());
            assert(traverser.pending_nodes() =~= Map::<u32, NodeView>::empty());
        }
        traverser
    }

    /// The handle that was given out last.
    pub fn handle(&self) -> (handle: u32)
        ensures
            handle == self.last_handle(),
    {
        self.handle
    }

    /// The handle of the document.
    pub fn get_document(&self) -> (handle: u32)
        ensures
            handle == document(),
    {
        0
    }

    /// Whether two handles name the same node.
    pub fn same_node(&self, x: u32, y: u32) -> (same: bool)
        ensures
            same == (x == y),
    {
        x == y
    }

    /// Where on the open path the element with the handle `target` stands,
    /// searched from the innermost element outward.
    fn on_stack(&self, target: u32) -> (found: Option<usize>)
        ensures
            match found {
                Some(index) => {
                    &&& index < self.traversal@.len()
                    &&& self.traversal@[index as int].handle == target
                    &&& has_handle(stack_view(self.traversal@), target)
                    &&& forall|k: int|
                        index < k < self.traversal@.len() ==> (#[trigger] self.traversal@[k]).handle
                            != target
                },
                None => !has_handle(stack_view(self.traversal@), target),
            },
    {
        let mut i: usize = self.traversal.len();
        while i > 0
            invariant
                i <= self.traversal@.len(),
                forall|k: int|
                    i <= k < self.traversal@.len() ==> (#[trigger] self.traversal@[k]).handle
                        != target,
            decreases i,
        {
            i -= 1;
            if self.traversal[i].handle == target {
                assert(stack_view(self.traversal@)[i as int].handle == target);
                return Some(i);
            }
        }
        proof {
            let path = stack_view(self.traversal@);
            if has_handle(path, target) {
                let k = choose|k: int| 0 <= k < path.len() && (#[trigger] path[k]).handle == target;
                assert(self.traversal@[k].handle == target);
            }
        }
        None
    }

    /// On a path without repeated handles, the place of the element that has
    /// a handle is the first place of that handle.
    proof fn lemma_place_on_stack(&self, index: int)
        requires
            distinct_handles(stack_view(self.traversal@)),
            0 <= index < self.traversal@.len(),
        ensures
            place_of(stack_view(self.traversal@), self.traversal@[index].handle) == index,
            has_handle(stack_view(self.traversal@), self.traversal@[index].handle),
    {
        let path = stack_view(self.traversal@);
        let target = self.traversal@[index].handle;
        assert(path[index].handle == target);
        if has_handle(path.take(index), target) {
            let k = choose|k: int| 0 <= k < index && (#[trigger] path.take(index)[k]).handle == target;
            assert(path[k].handle != path[index].handle);
        }
        lemma_place_of(path, target, index);
    }

    /// The element that a handle names: one on the open path, searched from
    /// the innermost outward, else one that waits to be appended.
    pub fn element(&self, target: u32) -> (found: Option<&TraversalElement>)
        requires
            self.inv(),
        ensures
            match found {
                Some(element) => self.resolved(target) == Some(element@),
                None => self.resolved(target) is None,
            },
    {
        if let Some(index) = self.on_stack(target) {
            proof {
                self.lemma_place_on_stack(index as int);
            }
            return Some(&self.traversal[index]);
        }
        match self.free_nodes.get(&target) {
            Some(Node::Element(element)) => Some(element),
            _ => None,
        }
    }

    /// Stores a new element and gives it the next handle. Nothing is reported
    /// yet.
    pub fn create_element(&mut self, name: QualName, attrs: Vec<Attribute>) -> (handle: u32)
        requires
            old(self).inv(),
            old(self).last_handle() < u32::MAX,
        ensures
            final(self).inv(),
            handle == old(self).last_handle() + 1,
            final(self).last_handle() == handle,
            final(self).pending_nodes() == old(self).pending_nodes().insert(
                handle,
                NodeView::Element(
                    ElementView { handle, name: name@, attrs: attrs_view(attrs@) },
                ),
            ),
            final(self).open_stack() == old(self).open_stack(),
            final(self).sink() == old(self).sink(),
            final(self).latched_error() == old(self).latched_error(),
    {
        self.handle += 1;
        let node = Node::Element(TraversalElement { handle: self.handle, name, attrs });
        proof {
            self.lemma_handle_is_new(self.handle);
            assert(self.free_nodes@.insert(self.handle, node).map_values(|node: Node| node@)
                =~= self.pending_nodes().insert(self.handle, node@));
        }
        self.free_nodes.insert(self.handle, node);
        self.handle
    }

    /// Stores a new comment and gives it the next handle. Nothing is reported
    /// yet.
    pub fn create_comment(&mut self, text: String) -> (handle: u32)
        requires
            old(self).inv(),
            old(self).last_handle() < u32::MAX,
        ensures
            final(self).inv(),
            handle == old(self).last_handle() + 1,
            final(self).last_handle() == handle,
            final(self).pending_nodes() == old(self).pending_nodes().insert(
                handle,
                NodeView::Comment(text@),
            ),
            final(self).open_stack() == old(self).open_stack(),
            final(self).sink() == old(self).sink(),
            final(self).latched_error() == old(self).latched_error(),
    {
        self.handle += 1;
        let node = Node::Comment(text);
        proof {
            self.lemma_handle_is_new(self.handle);
            assert(self.free_nodes@.insert(self.handle, node).map_values(|node: Node| node@)
                =~= self.pending_nodes().insert(self.handle, node@));
        }
        self.free_nodes.insert(self.handle, node);
        self.handle
    }

    /// A handle above all that are on the open path is not on it.
    proof fn lemma_handle_is_new(&self, handle: u32)
        requires
            forall|i: int|
                0 <= i < self.traversal@.len() ==> (#[trigger] self.traversal@[i]).handle < handle,
        ensures
            !has_handle(stack_view(self.traversal@), handle),
    {
        let path = stack_view(self.traversal@);
        if has_handle(path, handle) {
            let k = choose|k: int| 0 <= k < path.len() && (#[trigger] path[k]).handle == handle;
            assert(self.traversal@[k].handle == handle);
        }
    }

    /// Latches a parse error. The error that came first stays.
    pub fn parse_error(&mut self, msg: String)
        requires
            old(self).inv(),
        ensures
            final(self).inv(),
            final(self).latched_error() == if old(self).latched_error() is Some {
                old(self).latched_error()
            } else {
                Some(msg@)
            },
            final(self).open_stack() == old(self).open_stack(),
            final(self).pending_nodes() == old(self).pending_nodes(),
            final(self).sink() == old(self).sink(),
            final(self).last_handle() == old(self).last_handle(),
    {
        if self.parse_error.is_none() {
            self.parse_error = Some(msg);
        }
    }

    /// Hands a doctype on to the sink.
    pub fn append_doctype_to_document(&mut self, name: &str, public_id: &str, system_id: &str)
        requires
            old(self).inv(),
        ensures
            final(self).inv(),
            final(self).sink().received() == old(self).sink().received().push(
                SinkEvent::Doctype { name: name@, public_id: public_id@, system_id: system_id@ },
            ),
            final(self).latched_error() == old(self).latched_error(),
            final(self).open_stack() == old(self).open_stack(),
            final(self).pending_nodes() == old(self).pending_nodes(),
            final(self).last_handle() == old(self).last_handle(),
    {
        proof {
            self.inner.lemma_received_well_formed();
            lemma_well_formed_push(
                self.inner.received(),
                SinkEvent::Doctype { name: name@, public_id: public_id@, system_id: system_id@ },
            );
        }
        self.inner.append_doctype_to_document(name, public_id, system_id);
    }

    /// Ends the parse: the latched error if there is one, else what the sink
    /// hands back.
    pub fn finish(self) -> (outcome: Result<I::Output, String>)
        requires
            self.inv(),
        ensures
            match outcome {
                Ok(out) => self.latched_error() is None && out.deep_view() == self.sink().pending(),
                Err(message) => self.latched_error() == Some(message@),
            },
    {
        if let Some(err) = self.parse_error {
            Err(err)
        } else {
            Ok(self.inner.finish())
        }
    }

    /// The handle of the innermost open element, or of the document where
    /// none is open.
    fn top_handle(&self) -> (top: u32)
        ensures
            top == if self.traversal@.len() == 0 {
                document()
            } else {
                self.traversal@.last().handle
            },
    {
        if self.traversal.len() == 0 {
            0
        } else {
            self.traversal[self.traversal.len() - 1].handle
        }
    }

    /// The open path as a context for the sink.
    fn context(&self) -> (context: Vec<HtmlPathElement>)
        ensures
            path_view(context@) == stack_view(self.traversal@),
    {
        let mut context: Vec<HtmlPathElement> = Vec::new();
        let mut i: usize = 0;
        proof {
            assert(path_view(context@) =~= stack_view(self.traversal@).take(0));
        }
        while i < self.traversal.len()
            invariant
                i <= self.traversal@.len(),
                path_view(context@) == stack_view(self.traversal@).take(i as int),
            decreases self.traversal@.len() - i,
        {
            let element = self.traversal[i].as_html_path_element();
            proof {
                assert(path_view(context@.push(element)) =~= path_view(context@).push(element@));
                assert(stack_view(self.traversal@).take(i + 1) =~= stack_view(
                    self.traversal@,
                ).take(i as int).push(self.traversal@[i as int]@));
            }
            context.push(element);
            i += 1;
        }
        proof {
            assert(stack_view(self.traversal@).take(i as int) =~= stack_view(self.traversal@));
        }
        context
    }

    /// Closes the open elements below `parent`.
    fn unwind(&mut self, parent: u32)
        requires
            old(self).inv(),
            parent == document() || has_handle(old(self).open_stack(), parent),
        ensures
            final(self).inv(),
            final(self).open_stack() == unwound(old(self).open_stack(), parent),
            final(self).open_stack().is_prefix_of(old(self).open_stack()),
            final(self).inner == old(self).inner,
            final(self).parse_error == old(self).parse_error,
            final(self).handle == old(self).handle,
            final(self).free_nodes == old(self).free_nodes,
    {
        let ghost before = stack_view(self.traversal@);
        let mut top = self.top_handle();
        proof {
            assert(self.traversal@.take(self.traversal@.len() as int) =~= self.traversal@);
        }
        while top != parent
            invariant
                self.traversal@.len() <= old(self).traversal@.len(),
                self.traversal@ == old(self).traversal@.take(self.traversal@.len() as int),
                before == stack_view(old(self).traversal@),
                old(self).inv(),
                parent == document() || has_handle(stack_view(self.traversal@), parent),
                top == if self.traversal@.len() == 0 {
                    document()
                } else {
                    self.traversal@.last().handle
                },
                self.inner == old(self).inner,
                self.parse_error == old(self).parse_error,
                self.handle == old(self).handle,
                self.free_nodes == old(self).free_nodes,
            decreases self.traversal@.len(),
        {
            let ghost path = stack_view(self.traversal@);
            proof {
                if self.traversal@.len() == 0 {
                    assert(!has_handle(path, parent));
                }
            }
            self.traversal.pop();
            proof {
                let shorter = stack_view(self.traversal@);
                assert(self.traversal@ =~= old(self).traversal@.take(self.traversal@.len() as int));
                if parent != document() {
                    let k = choose|k: int|
                        0 <= k < path.len() && (#[trigger] path[k]).handle == parent;
                    assert(shorter[k].handle == parent);
                }
            }
            top = self.top_handle();
        }
        proof {
            let path = stack_view(self.traversal@);
            let len = self.traversal@.len() as int;
            assert(path =~= before.take(len));
            if parent == document() {
                if len > 0 {
                    assert(self.traversal@[len - 1] == old(self).traversal@[len - 1]);
                }
                assert(path =~= Seq::<ElementView>::empty());
            } else {
                assert(len > 0);
                assert(before[len - 1].handle == parent);
                old(self).lemma_place_on_stack(len - 1);
            }
            assert(path.is_prefix_of(before));
            assert forall|handle: u32| #[trigger]
                self.free_nodes@.contains_key(handle) implies !has_handle(path, handle) by {
                if has_handle(path, handle) {
                    let k = choose|k: int|
                        0 <= k < path.len() && (#[trigger] path[k]).handle == handle;
                    assert(before[k].handle == handle);
                }
            }
            assert(distinct_handles(path)) by {
                assert forall|i: int, j: int| 0 <= i < j < path.len() implies (
                #[trigger] path[i]).handle != (#[trigger] path[j]).handle by {
                    assert(before[i].handle != before[j].handle);
                }
            }
            assert forall|i: int| 0 <= i < self.traversal@.len() implies document() < (
            #[trigger] self.traversal@[i]).handle <= self.handle by {
                assert(self.traversal@[i] == old(self).traversal@[i]);
            }
        }
    }

    /// Appends `child` below `parent`: closes the open elements below the
    /// parent and reports the child to the sink, with what stays open as its
    /// context. An element stays open in turn.
    ///
    /// Once a parse error is latched, nothing more is reported and every call
    /// is accepted: the path is still closed down to a parent that is known,
    /// and nothing happens for one that is not.
    pub fn append(&mut self, parent: u32, child: NodeOrText) -> (outcome: Result<(), AppendError>)
        requires
            old(self).inv(),
        ensures
            final(self).inv(),
            final(self).last_handle() == old(self).last_handle(),
            final(self).latched_error() == old(self).latched_error(),
            match outcome {
                Err(AppendError::UnknownParent) => {
                    &&& old(self).latched_error() is None
                    &&& parent != document()
                    &&& !has_handle(old(self).open_stack(), parent)
                    &&& *final(self) == *old(self)
                },
                Err(AppendError::UnknownNode) => {
                    &&& parent == document() || has_handle(old(self).open_stack(), parent)
                    &&& old(self).latched_error() is None
                    &&& child is AppendNode
                    &&& !old(self).pending_nodes().contains_key(child->AppendNode_0)
                    &&& *final(self) == *old(self)
                },
                Ok(()) => {
                    let context = unwound(old(self).open_stack(), parent);
                    let known = parent == document() || has_handle(old(self).open_stack(), parent);
                    if old(self).latched_error() is Some {
                        &&& final(self).open_stack() == if known {
                            context
                        } else {
                            old(self).open_stack()
                        }
                        &&& final(self).pending_nodes() == old(self).pending_nodes()
                        &&& final(self).sink() == old(self).sink()
                    } else {
                        &&& known
                        &&& match child {
                            NodeOrText::AppendText(text) => {
                                &&& final(self).open_stack() == context
                                &&& final(self).pending_nodes() == old(self).pending_nodes()
                                &&& final(self).sink().received() == old(
                                    self,
                                ).sink().received().push(SinkEvent::Text { context, text: text@ })
                            },
                            NodeOrText::AppendNode(handle) => {
                                &&& old(self).pending_nodes().contains_key(handle)
                                &&& final(self).pending_nodes() == old(
                                    self,
                                ).pending_nodes().remove(handle)
                                &&& final(self).open_stack() == stack_with(
                                    context,
                                    old(self).pending_nodes()[handle],
                                )
                                &&& final(self).sink().received() == old(
                                    self,
                                ).sink().received().push(
                                    node_event(context, old(self).pending_nodes()[handle]),
                                )
                            },
                        }
                    }
                },
            },
    {
        let known = parent == self.get_document() || self.on_stack(parent).is_some();
        if self.parse_error.is_some() {
            if known {
                self.unwind(parent);
            }
            return Ok(());
        }
        if !known {
            return Err(AppendError::UnknownParent);
        }
        match child {
            NodeOrText::AppendNode(handle) => {
                if !self.free_nodes.contains_key(&handle) {
                    return Err(AppendError::UnknownNode);
                }
                self.unwind(parent);
                let context = self.context();
                let ghost pool = self.free_nodes@;
                let ghost open = stack_view(self.traversal@);
                proof {
                    self.inner.lemma_received_well_formed();
                    assert(open =~= open_path(self.inner.received()).subrange(
                        0,
                        open.len() as int,
                    ));
                }
                let node = self.free_nodes.remove(&handle).unwrap();
                proof {
                    assert(node == pool[handle]);
                    assert(self.free_nodes@ =~= pool.remove(handle));
                    assert(self.free_nodes@.map_values(|node: Node| node@) =~= pool.map_values(
                        |node: Node| node@,
                    ).remove(handle));
                    lemma_well_formed_push(self.inner.received(), node_event(open, node@));
                }
                match node {
                    Node::Element(element) => {
                        self.inner.append_element(
                            context.as_slice(),
                            &element.as_html_path_element(),
                        );
                        proof {
                            assert(stack_view(self.traversal@.push(element)) =~= open.push(
                                element@,
                            ));
                            self.lemma_stack_grows(element);
                        }
                        self.traversal.push(element);
                    },
                    Node::Comment(text) => {
                        self.inner.append_comment(context.as_slice(), text.as_str());
                    },
                }
            },
            NodeOrText::AppendText(text) => {
                self.unwind(parent);
                let context = self.context();
                proof {
                    let open = stack_view(self.traversal@);
                    self.inner.lemma_received_well_formed();
                    assert(open =~= open_path(self.inner.received()).subrange(
                        0,
                        open.len() as int,
                    ));
                    lemma_well_formed_push(
                        self.inner.received(),
                        SinkEvent::Text { context: open, text: text@ },
                    );
                }
                self.inner.append_text(context.as_slice(), text.as_str());
            },
        }
        Ok(())
    }

    /// An element whose handle is neither on the open path nor waiting can
    /// go on the path.
    proof fn lemma_stack_grows(&self, element: TraversalElement)
        requires
            distinct_handles(stack_view(self.traversal@)),
            !has_handle(stack_view(self.traversal@), element.handle),
            forall|handle: u32| #[trigger]
                self.free_nodes@.contains_key(handle) ==> handle != element.handle && !has_handle(
                    stack_view(self.traversal@),
                    handle,
                ),
        ensures
            distinct_handles(stack_view(self.traversal@.push(element))),
            forall|handle: u32| #[trigger]
                self.free_nodes@.contains_key(handle) ==> !has_handle(
                    stack_view(self.traversal@.push(element)),
                    handle,
                ),
    {
        let path = stack_view(self.traversal@);
        let longer = stack_view(self.traversal@.push(element));
        assert(longer =~= path.push(element@));
        assert forall|i: int, j: int| 0 <= i < j < longer.len() implies (#[trigger] longer[i]).handle
            != (#[trigger] longer[j]).handle by {
            if j == path.len() {
                assert(path[i].handle != element.handle);
            } else {
                assert(path[i].handle != path[j].handle);
            }
        }
        assert forall|handle: u32| #[trigger]
            self.free_nodes@.contains_key(handle) implies !has_handle(longer, handle) by {
            if has_handle(longer, handle) {
                let k = choose|k: int|
                    0 <= k < longer.len() && (#[trigger] longer[k]).handle == handle;
                if k < path.len() {
                    assert(path[k].handle == handle);
                }
            }
        }
    }
}

} // verus!
