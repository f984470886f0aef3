//! The capability that every stage and every terminal consumer implements.

use vstd::prelude::*;
use crate::element::{HtmlContext, HtmlPathElement, path_view};
use crate::event::{SinkEvent, context_of, fits, lemma_context_monotone, open_path, well_formed};

verus! {

/// A consumer of stream events.
///
/// Every event but a doctype carries its context, the path of the open
/// ancestors of the node it reports. A caller owes the sink contexts that fit
/// what its earlier events left open: each context is a prefix of the open
/// path, and an element brings a handle that its context lacks. So a sink can
/// tell what has been closed from the context alone; there is no event that
/// closes an element.
pub trait HtmlSink: Sized {
    /// What the sink hands back when it is reset or finished.
    type Output: DeepView;

    /// The invariant of the sink.
    spec fn inv(&self) -> bool;

    /// The events taken since the sink was made or last reset, oldest first.
    spec fn received(&self) -> Seq<SinkEvent>;

    /// What a reset would hand back now.
    spec fn pending(&self) -> <Self::Output as DeepView>::V;

    /// What a sink that has taken nothing hands back.
    spec fn nothing() -> <Self::Output as DeepView>::V;

    /// The events that a valid sink has taken form a well-formed stream.
    proof fn lemma_received_well_formed(&self)
        requires
            self.inv(),
        ensures
            well_formed(self.received()),
    ;

    /// Takes the doctype of the document.
    fn append_doctype_to_document(&mut self, name: &str, public_id: &str, system_id: &str)
        requires
            old(self).inv(),
        ensures
            final(self).inv(),
            final(self).received() == old(self).received().push(
                SinkEvent::Doctype { name: name@, public_id: public_id@, system_id: system_id@ },
            ),
    ;

    /// Takes an element, which stays open below `context`.
    fn append_element(&mut self, context: HtmlContext<'_>, element: &HtmlPathElement)
        requires
            old(self).inv(),
            fits(
                open_path(old(self).received()),
                SinkEvent::Element { context: path_view(context@), element: element@ },
            ),
        ensures
            final(self).inv(),
            final(self).received() == old(self).received().push(
                SinkEvent::Element { context: path_view(context@), element: element@ },
            ),
    ;

    /// Takes a text below `context`.
    fn append_text(&mut self, context: HtmlContext<'_>, text: &str)
        requires
            old(self).inv(),
            fits(
                open_path(old(self).received()),
                SinkEvent::Text { context: path_view(context@), text: text@ },
            ),
        ensures
            final(self).inv(),
            final(self).received() == old(self).received().push(
                SinkEvent::Text { context: path_view(context@), text: text@ },
            ),
    ;

    /// Takes a comment below `context`.
    fn append_comment(&mut self, context: HtmlContext<'_>, text: &str)
        requires
            old(self).inv(),
            fits(
                open_path(old(self).received()),
                SinkEvent::Comment { context: path_view(context@), text: text@ },
            ),
        ensures
            final(self).inv(),
            final(self).received() == old(self).received().push(
                SinkEvent::Comment { context: path_view(context@), text: text@ },
            ),
    ;

    /// Hands back what has accumulated and leaves the sink as new.
    fn reset(&mut self) -> (out: Self::Output)
        requires
            old(self).inv(),
        ensures
            final(self).inv(),
            out.deep_view() == old(self).pending(),
            final(self).received() == Seq::<SinkEvent>::empty(),
            final(self).pending() == Self::nothing(),
    ;

    /// Ends the stream.
    fn finish(self) -> (out: Self::Output)
        requires
            self.inv(),
        ensures
            out.deep_view() == self.pending(),
    {
        let mut sink = self;
        sink.reset()
    }
}

/// A pair of sinks is a sink: it hands every call to the first and then to
/// the second, and hands back what each of them hands back.
impl<A: HtmlSink, B: HtmlSink> HtmlSink for (A, B) {
    type Output = (A::Output, B::Output);

    open spec fn inv(&self) -> bool {
        &&& self.0.inv()
        &&& self.1.inv()
        &&& self.0.received() == self.1.received()
    }

    open spec fn received(&self) -> Seq<SinkEvent> {
        self.0.received()
    }

    open spec fn pending(&self) -> (<A::Output as DeepView>::V, <B::Output as DeepView>::V) {
        (self.0.pending(), self.1.pending())
    }

    open spec fn nothing() -> (<A::Output as DeepView>::V, <B::Output as DeepView>::V) {
        (A::nothing(), B::nothing())
    }

    proof fn lemma_received_well_formed(&self) {
        self.0.lemma_received_well_formed();
    }

    fn append_doctype_to_document(&mut self, name: &str, public_id: &str, system_id: &str) {
        self.0.append_doctype_to_document(name, public_id, system_id);
        self.1.append_doctype_to_document(name, public_id, system_id);
    }

    fn append_element(&mut self, context: HtmlContext<'_>, element: &HtmlPathElement) {
        self.0.append_element(context, element);
        self.1.append_element(context, element);
    }

    fn append_text(&mut self, context: HtmlContext<'_>, text: &str) {
        self.0.append_text(context, text);
        self.1.append_text(context, text);
    }

    fn append_comment(&mut self, context: HtmlContext<'_>, text: &str) {
        self.0.append_comment(context, text);
        self.1.append_comment(context, text);
    }

    fn reset(&mut self) -> (out: Self::Output) {
        let first = self.0.reset();
        let second = self.1.reset();
        let out = (first, second);
        assert(out.deep_view() == old(self).pending());
        assert(self.received() == Seq::<SinkEvent>::empty());
        assert(self.pending() == Self::nothing());
        out
    }
}

/// What `reset` promises of every sink, as a relation: it hands back what
/// was pending and leaves a valid sink that has taken nothing and has nothing
/// pending.
pub open spec fn resets<S: HtmlSink>(before: S, after: S, out: <S::Output as DeepView>::V) -> bool {
    &&& after.inv()
    &&& out == before.pending()
    &&& after.received() == Seq::<SinkEvent>::empty()
    &&& after.pending() == S::nothing()
}

/// Context monotonicity. Of two events that a sink has taken one after the
/// other, neither of them a doctype, the context of the second is a prefix of
/// the context of the first, or the other way round.
pub proof fn lemma_contexts_monotone<S: HtmlSink>(sink: S, i: int)
    requires
        sink.inv(),
        0 <= i,
        i + 1 < sink.received().len(),
        !(sink.received()[i] is Doctype),
        !(sink.received()[i + 1] is Doctype),
    ensures
        context_of(sink.received()[i + 1]).is_prefix_of(context_of(sink.received()[i]))
            || context_of(sink.received()[i]).is_prefix_of(context_of(sink.received()[i + 1])),
{
    sink.lemma_received_well_formed();
    lemma_context_monotone(sink.received(), i);
}

/// Reset idempotence. Of two resets that follow one another, the first hands
/// back what was pending, the second what a sink hands back that has taken
/// nothing; and the second leaves the sink as the first left it.
pub proof fn lemma_reset_twice<S: HtmlSink>(
    start: S,
    once: S,
    twice: S,
    first: <S::Output as DeepView>::V,
    second: <S::Output as DeepView>::V,
)
    requires
        start.inv(),
        resets(start, once, first),
        resets(once, twice, second),
    ensures
        first == start.pending(),
        second == S::nothing(),
        twice.received() == once.received(),
        twice.pending() == once.pending(),
{
}

/// Fan-out equivalence. Each sink of a pair has taken the events that the
/// pair has taken, and the pair hands back what its first sink would hand
/// back alone, together with what its second would.
pub proof fn lemma_fan_out<A: HtmlSink, B: HtmlSink>(pair: (A, B))
    requires
        pair.inv(),
    ensures
        pair.0.inv(),
        pair.1.inv(),
        pair.0.received() == pair.received(),
        pair.1.received() == pair.received(),
        pair.pending() == (pair.0.pending(), pair.1.pending()),
        <(A, B) as HtmlSink>::nothing() == (A::nothing(), B::nothing()),
{
}

} // verus!
