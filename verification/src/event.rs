//! The stream as a mathematical object: the events a sink has taken, and the
//! path of elements that they leave open.

use vstd::prelude::*;
use crate::element::{ElementView, distinct_handles, has_handle};

verus! {

/// One call into a sink.
pub enum SinkEvent {
    Doctype { name: Seq<char>, public_id: Seq<char>, system_id: Seq<char> },
    Element { context: Seq<ElementView>, element: ElementView },
    Text { context: Seq<ElementView>, text: Seq<char> },
    Comment { context: Seq<ElementView>, text: Seq<char> },
}

/// The path that is open once `event` has been taken, `before` being the path
/// that was open until then. An element opens itself below its context; text
/// and comments leave their context open; a doctype changes nothing.
pub open spec fn path_after(before: Seq<ElementView>, event: SinkEvent) -> Seq<ElementView> {
    match event {
        SinkEvent::Doctype { .. } => before,
        SinkEvent::Element { context, element } => context.push(element),
        SinkEvent::Text { context, .. } => context,
        SinkEvent::Comment { context, .. } => context,
    }
}

/// The path that the events of `log` leave open.
pub open spec fn open_path(log: Seq<SinkEvent>) -> Seq<ElementView>
    decreases log.len(),
{
    if log.len() == 0 {
        Seq::empty()
    } else {
        path_after(open_path(log.drop_last()), log.last())
    }
}

/// Whether `event` may arrive while `open` is open: its context is a prefix
/// of the open path, and an element brings a handle that its context lacks.
pub open spec fn fits(open: Seq<ElementView>, event: SinkEvent) -> bool {
    match event {
        SinkEvent::Doctype { .. } => true,
        SinkEvent::Element { context, element } => {
            &&& context.is_prefix_of(open)
            &&& !has_handle(context, element.handle)
        },
        SinkEvent::Text { context, .. } => context.is_prefix_of(open),
        SinkEvent::Comment { context, .. } => context.is_prefix_of(open),
    }
}

/// Whether every event of `log` fits the path that the events before it
/// left open.
pub open spec fn well_formed(log: Seq<SinkEvent>) -> bool
    decreases log.len(),
{
    log.len() == 0 || (well_formed(log.drop_last()) && fits(
        open_path(log.drop_last()),
        log.last(),
    ))
}

/// The context that an event carries; a doctype carries none.
pub open spec fn context_of(event: SinkEvent) -> Seq<ElementView> {
    match event {
        SinkEvent::Doctype { .. } => Seq::empty(),
        SinkEvent::Element { context, .. } => context,
        SinkEvent::Text { context, .. } => context,
        SinkEvent::Comment { context, .. } => context,
    }
}

/// A prefix of a path without repeated handles has none either.
pub proof fn lemma_prefix_distinct(prefix: Seq<ElementView>, path: Seq<ElementView>)
    requires
        prefix.is_prefix_of(path),
        distinct_handles(path),
    ensures
        distinct_handles(prefix),
{
    assert forall|i: int, j: int| 0 <= i < j < prefix.len() implies (#[trigger] prefix[i]).handle
        != (#[trigger] prefix[j]).handle by {
        assert(prefix[i] == path[i]);
        assert(prefix[j] == path[j]);
    }
}

/// An event that fits what a well-formed stream leaves open extends it to a
/// well-formed stream.
pub proof fn lemma_well_formed_push(log: Seq<SinkEvent>, event: SinkEvent)
    requires
        well_formed(log),
        fits(open_path(log), event),
    ensures
        well_formed(log.push(event)),
        open_path(log.push(event)) == path_after(open_path(log), event),
{
    assert(log.push(event).drop_last() =~= log);
}

/// What a well-formed stream leaves open holds no handle twice.
pub proof fn lemma_open_path_distinct(log: Seq<SinkEvent>)
    requires
        well_formed(log),
    ensures
        distinct_handles(open_path(log)),
    decreases log.len(),
{
    if log.len() > 0 {
        let before = open_path(log.drop_last());
        lemma_open_path_distinct(log.drop_last());
        match log.last() {
            SinkEvent::Doctype { .. } => {},
            SinkEvent::Element { context, element } => {
                lemma_prefix_distinct(context, before);
                let path = context.push(element);
                assert forall|i: int, j: int| 0 <= i < j < path.len() implies (
                #[trigger] path[i]).handle != (#[trigger] path[j]).handle by {
                    if j == context.len() {
                        assert(context[i].handle != element.handle);
                    } else {
                        assert(context[i].handle != context[j].handle);
                    }
                }
            },
            SinkEvent::Text { context, .. } => {
                lemma_prefix_distinct(context, before);
            },
            SinkEvent::Comment { context, .. } => {
                lemma_prefix_distinct(context, before);
            },
        }
    }
}

/// In a path without repeated handles, a prefix holds the handle that stands
/// at `index` exactly when it reaches beyond `index`.
pub proof fn lemma_handle_in_prefix(prefix: Seq<ElementView>, path: Seq<ElementView>, index: int)
    requires
        prefix.is_prefix_of(path),
        distinct_handles(path),
        0 <= index < path.len(),
    ensures
        has_handle(prefix, path[index].handle) <==> index < prefix.len(),
{
    let handle = path[index].handle;
    if index < prefix.len() {
        assert(prefix[index] == path[index]);
    }
    if has_handle(prefix, handle) {
        let i = choose|i: int| 0 <= i < prefix.len() && (#[trigger] prefix[i]).handle == handle;
        assert(prefix[i] == path[i]);
        if i < index {
            assert(path[i].handle != path[index].handle);
        }
        if index < i {
            assert(path[index].handle != path[i].handle);
        }
    }
}

/// Every event of a well-formed stream fits what the events before it left
/// open.
pub proof fn lemma_well_formed_at(log: Seq<SinkEvent>, i: int)
    requires
        well_formed(log),
        0 <= i < log.len(),
    ensures
        well_formed(log.take(i)),
        fits(open_path(log.take(i)), log[i]),
    decreases log.len(),
{
    if i == log.len() - 1 {
        assert(log.take(i) =~= log.drop_last());
    } else {
        lemma_well_formed_at(log.drop_last(), i);
        assert(log.drop_last().take(i) =~= log.take(i));
    }
}

/// Context monotonicity. Of two events that follow one another in a
/// well-formed stream, neither of them a doctype, the context of the second
/// is a prefix of the context of the first, or it is the context of the first
/// with the element that the first event brought.
pub proof fn lemma_context_monotone(log: Seq<SinkEvent>, i: int)
    requires
        well_formed(log),
        0 <= i,
        i + 1 < log.len(),
        !(log[i] is Doctype),
        !(log[i + 1] is Doctype),
    ensures
        context_of(log[i + 1]).is_prefix_of(path_after(Seq::empty(), log[i])),
        context_of(log[i + 1]).is_prefix_of(context_of(log[i])) || context_of(
            log[i],
        ).is_prefix_of(context_of(log[i + 1])),
{
    lemma_well_formed_at(log, i + 1);
    assert(log.take(i + 1).drop_last() =~= log.take(i));
    assert(log.take(i + 1).last() == log[i]);
    let next = context_of(log[i + 1]);
    let open = open_path(log.take(i + 1));
    assert(next.is_prefix_of(open));
    match log[i] {
        SinkEvent::Element { context, element } => {
            assert(open == context.push(element));
            if next.len() <= context.len() {
                assert(next =~= context.subrange(0, next.len() as int));
            } else {
                assert(context =~= next.subrange(0, context.len() as int));
            }
        },
        _ => {},
    }
}

} // verus!
