//! The stage that extracts subtrees: every element its matcher takes becomes
//! the root of an output of its own.

use vstd::prelude::*;
use vstd::slice::slice_subrange;
use crate::element::{
    ElementView, HtmlContext, HtmlPathElement, distinct_handles, has_handle, lemma_place_of,
    path_view, place_of, position_of_handle,
};
use crate::event::{
    SinkEvent, context_of, fits, lemma_handle_in_prefix, lemma_open_path_distinct,
    lemma_well_formed_push, open_path, path_after, well_formed,
};
use crate::selector::ContextualSelector;
use crate::sink::HtmlSink;

verus! {

/// An event with the first `index` elements of its context cut off.
pub open spec fn rebased_at(event: SinkEvent, index: int) -> SinkEvent {
    match event {
        SinkEvent::Doctype { .. } => event,
        SinkEvent::Element { context, element } => SinkEvent::Element {
            context: context.skip(index),
            element,
        },
        SinkEvent::Text { context, text } => SinkEvent::Text { context: context.skip(index), text },
        SinkEvent::Comment { context, text } => SinkEvent::Comment {
            context: context.skip(index),
            text,
        },
    }
}

/// An event as seen from the root of a selection: what stands above the root
/// is cut off its context, the root stays as the outermost element.
pub open spec fn rebased_event(event: SinkEvent, root: u32) -> SinkEvent {
    rebased_at(event, place_of(context_of(event), root))
}

/// Whether `event` belongs to the selection `select`: the root of the
/// selection is in its context.
pub open spec fn in_selection(select: Option<u32>, event: SinkEvent) -> bool {
    !(event is Doctype) && select is Some && has_handle(context_of(event), select->0)
}

/// Whether `event` is the root of a new selection: an element outside the
/// selection under way that the matcher takes.
pub open spec fn starts_selection<M: ContextualSelector>(
    matcher: M,
    select: Option<u32>,
    event: SinkEvent,
) -> bool {
    !in_selection(select, event) && match event {
        SinkEvent::Element { context, element } => matcher.selects(context, element),
        _ => false,
    }
}

/// What one event makes of the selection `select`: a selection goes on while
/// its root is in the context, and ends with the first event that lacks it;
/// an element that the matcher takes outside a selection starts one.
pub open spec fn selecting_after<M: ContextualSelector>(
    matcher: M,
    select: Option<u32>,
    event: SinkEvent,
) -> Option<u32> {
    if event is Doctype || in_selection(select, event) {
        select
    } else if starts_selection(matcher, select, event) {
        Some(event->Element_element.handle)
    } else {
        None
    }
}

/// The selection that is under way once a filter has taken the events of
/// `log`, by the handle of its root.
pub open spec fn selecting_at<M: ContextualSelector>(matcher: M, log: Seq<SinkEvent>) -> Option<
    u32,
>
    decreases log.len(),
{
    if log.len() == 0 {
        None
    } else {
        selecting_after(matcher, selecting_at(matcher, log.drop_last()), log.last())
    }
}

/// The events that a filter has handed on for the selection that is under way
/// once it has taken the events of `log`: the root with an empty context, and
/// then what belongs to the selection, rebased.
pub open spec fn selection_events<M: ContextualSelector>(matcher: M, log: Seq<SinkEvent>) -> Seq<
    SinkEvent,
>
    decreases log.len(),
{
    if log.len() == 0 {
        Seq::empty()
    } else {
        let before = selecting_at(matcher, log.drop_last());
        let event = log.last();
        if event is Doctype {
            selection_events(matcher, log.drop_last())
        } else if in_selection(before, event) {
            selection_events(matcher, log.drop_last()).push(rebased_event(event, before->0))
        } else if starts_selection(matcher, before, event) {
            seq![SinkEvent::Element { context: Seq::empty(), element: event->Element_element }]
        } else {
            Seq::empty()
        }
    }
}

/// What one more event adds to the selection under way and to its events.
pub proof fn lemma_selection_push<M: ContextualSelector>(
    matcher: M,
    log: Seq<SinkEvent>,
    event: SinkEvent,
)
    ensures
        selecting_at(matcher, log.push(event)) == selecting_after(
            matcher,
            selecting_at(matcher, log),
            event,
        ),
        selection_events(matcher, log.push(event)) == if event is Doctype {
            selection_events(matcher, log)
        } else if in_selection(selecting_at(matcher, log), event) {
            selection_events(matcher, log).push(
                rebased_event(event, selecting_at(matcher, log)->0),
            )
        } else if starts_selection(matcher, selecting_at(matcher, log), event) {
            seq![SinkEvent::Element { context: Seq::empty(), element: event->Element_element }]
        } else {
            Seq::empty()
        },
{
    assert(log.push(event).drop_last() =~= log);
}

/// In an open path without repeated handles, a context that holds the handle
/// found at `index` holds it at `index`, and first there.
pub proof fn lemma_root_place(open: Seq<ElementView>, context: Seq<ElementView>, index: int)
    requires
        distinct_handles(open),
        context.is_prefix_of(open),
        0 <= index < open.len(),
        has_handle(context, open[index].handle),
    ensures
        index < context.len(),
        place_of(context, open[index].handle) == index,
{
    let root = open[index].handle;
    lemma_handle_in_prefix(context, open, index);
    assert(context[index] == open[index]);
    if has_handle(context.take(index), root) {
        let k = choose|k: int| 0 <= k < index && (#[trigger] context.take(index)[k]).handle == root;
        assert(context[k] == open[k]);
        assert(open[k].handle != open[index].handle);
    }
    lemma_place_of(context, root, index);
}

/// An event that reaches below `index` fits, rebased, what is open below
/// `index`, and leaves open there what it leaves open as it came.
pub proof fn lemma_rebased_fits(open: Seq<ElementView>, event: SinkEvent, index: int)
    requires
        !(event is Doctype),
        fits(open, event),
        0 <= index < context_of(event).len(),
    ensures
        fits(open.skip(index), rebased_at(event, index)),
        path_after(open.skip(index), rebased_at(event, index)) == path_after(open, event).skip(
            index,
        ),
        path_after(open, event)[index] == open[index],
{
    let context = context_of(event);
    let cut = context.skip(index);
    assert(context[index] == open[index]);
    assert(cut =~= open.skip(index).subrange(0, cut.len() as int));
    match event {
        SinkEvent::Element { context, element } => {
            if has_handle(cut, element.handle) {
                let k = choose|k: int|
                    0 <= k < cut.len() && (#[trigger] cut[k]).handle == element.handle;
                assert(context[index + k].handle == element.handle);
            }
            assert(cut.push(element) =~= context.push(element).skip(index));
        },
        _ => {},
    }
}

/// A stage that hands on, for each element its matcher takes, the subtree of
/// that element as a stream of its own, and collects what its sink makes of
/// each.
pub struct RootFilter<S: HtmlSink, M: ContextualSelector> {
    inner: S,
    matcher: M,
    select_handle: Option<u32>,
    output: Vec<S::Output>,
    log: Ghost<Seq<SinkEvent>>,
    root_index: Ghost<int>,
    base: Ghost<Seq<SinkEvent>>,
}

impl<S: HtmlSink, M: ContextualSelector> RootFilter<S, M> {
    /// The sink that the filter feeds.
    pub closed spec fn sink(&self) -> S {
        self.inner
    }

    /// The matcher that decides which elements become roots.
    pub closed spec fn matcher(&self) -> M {
        self.matcher
    }

    /// The handle of the root of the selection under way, if one is.
    pub closed spec fn selecting(&self) -> Option<u32> {
        self.select_handle
    }

    /// The outputs of the selections that have ended, oldest first.
    pub closed spec fn collected(&self) -> Seq<<S::Output as DeepView>::V> {
        self.output.deep_view()
    }

    /// The events that the sink had taken when the filter began to feed it;
    /// none once the filter has reset the sink.
    pub closed spec fn taken_before(&self) -> Seq<SinkEvent> {
        self.base@
    }

    /// Over the whole stream: the selection under way is the one that the
    /// events taken leave under way; while one is under way, the sink has
    /// taken its events since the filter began to feed it, and no others; and
    /// while none is, the sink has taken nothing since.
    pub proof fn lemma_stream(&self)
        requires
            self.inv(),
        ensures
            self.selecting() == selecting_at(self.matcher(), self.received()),
            self.sink().received() == if self.selecting() is Some {
                self.taken_before() + selection_events(self.matcher(), self.received())
            } else {
                self.taken_before()
            },
    {
    }

    /// What the step of one event does, seen from outside.
    ///
    /// An event of the selection under way is handed on rebased. Any other
    /// event but a doctype ends that selection: the sink is reset and its
    /// output collected. If the event is an element that the matcher takes, it
    /// then starts a selection and is handed on with an empty context;
    /// anything else is dropped.
    pub open spec fn stepped(&self, next: &Self, event: SinkEvent) -> bool {
        &&& next.matcher() == self.matcher()
        &&& next.received() == self.received().push(event)
        &&& next.taken_before() == if self.selecting() is Some && !(event is Doctype)
            && !in_selection(self.selecting(), event) {
            Seq::<SinkEvent>::empty()
        } else {
            self.taken_before()
        }
        &&& if event is Doctype {
            &&& next.sink() == self.sink()
            &&& next.selecting() == self.selecting()
            &&& next.collected() == self.collected()
        } else if in_selection(self.selecting(), event) {
            &&& next.selecting() == self.selecting()
            &&& next.collected() == self.collected()
            &&& next.sink().received() == self.sink().received().push(
                rebased_event(event, self.selecting()->0),
            )
        } else {
            let base = if self.selecting() is Some {
                Seq::<SinkEvent>::empty()
            } else {
                self.sink().received()
            };
            &&& next.collected() == if self.selecting() is Some {
                self.collected().push(self.sink().pending())
            } else {
                self.collected()
            }
            &&& if starts_selection(self.matcher(), self.selecting(), event) {
                &&& next.selecting() == Some(event->Element_element.handle)
                &&& next.sink().received() == base.push(
                    SinkEvent::Element {
                        context: Seq::empty(),
                        element: event->Element_element,
                    },
                )
            } else {
                &&& next.selecting() is None
                &&& next.sink().received() == base
                &&& self.selecting() is None ==> next.sink() == self.sink()
            }
        }
    }

    /// A filter around `inner` that extracts the subtrees of what `matcher`
    /// takes.
    pub fn wrap(inner: S, matcher: M) -> (filter: Self)
        requires
            inner.inv(),
        ensures
            filter.inv(),
            filter.sink() == inner,
            filter.matcher() == matcher,
            filter.selecting() is None,
            filter.collected() == Seq::<<S::Output as DeepView>::V>::empty(),
            filter.received() == Seq::<SinkEvent>::empty(),
            filter.taken_before() == inner.received(),
    {
        let filter = RootFilter {
            inner,
            matcher,
            select_handle: None,
            output: Vec::new(),
            log: Ghost(Seq::empty()),
            root_index: Ghost(0),
            base: Ghost(inner.received()),
        };
        proof {
            assert(filter.output.deep_view() =~= Seq::<<S::Output as DeepView>::V>::empty());
        }
        filter
    }

    /// Ends the selection under way: resets the sink and collects its output.
    fn end_selection(&mut self)
        requires
            old(self).inner.inv(),
        ensures
            final(self).matcher == old(self).matcher,
            final(self).log == old(self).log,
            final(self).select_handle is None,
            final(self).inner.inv(),
            final(self).inner.received() == Seq::<SinkEvent>::empty(),
            final(self).inner.pending() == S::nothing(),
            final(self).base@ == Seq::<SinkEvent>::empty(),
            final(self).output.deep_view() == old(self).output.deep_view().push(
                old(self).inner.pending(),
            ),
    {
        self.select_handle = None;
        self.base = Ghost(Seq::empty());
        let out = self.inner.reset();
        let ghost before = self.output.deep_view();
        let ghost added = out.deep_view();
        self.output.push(out);
        proof {
            assert(self.output.deep_view() =~= before.push(added));
        }
    }

    /// Where the root of the selection under way stands in `context`. Where it
    /// does not stand there, the selection is ended.
    fn selection_root(&mut self, context: HtmlContext<'_>) -> (root: Option<usize>)
        requires
            old(self).inv(),
            path_view(context@).is_prefix_of(open_path(old(self).log@)),
        ensures
            final(self).matcher == old(self).matcher,
            final(self).log == old(self).log,
            final(self).inner.inv(),
            match root {
                Some(index) => {
                    &&& old(self).select_handle is Some
                    &&& has_handle(path_view(context@), old(self).select_handle->0)
                    &&& index == place_of(path_view(context@), old(self).select_handle->0)
                    &&& index < context@.len()
                    &&& index == old(self).root_index@
                    &&& *final(self) == *old(self)
                },
                None => {
                    &&& !(old(self).select_handle is Some && has_handle(
                        path_view(context@),
                        old(self).select_handle->0,
                    ))
                    &&& final(self).select_handle is None
                    &&& final(self).inner.received() == final(self).base@
                    &&& if old(self).select_handle is Some {
                        &&& final(self).base@ == Seq::<SinkEvent>::empty()
                        &&& final(self).output.deep_view() == old(self).output.deep_view().push(
                            old(self).inner.pending(),
                        )
                    } else {
                        &&& final(self).inner == old(self).inner
                        &&& final(self).base == old(self).base
                        &&& final(self).output == old(self).output
                    }
                },
            },
    {
        if let Some(select_handle) = self.select_handle {
            if let Some(select_index) = position_of_handle(context, select_handle) {
                proof {
                    let given = path_view(context@);
                    lemma_open_path_distinct(self.log@);
                    assert(given[select_index as int].handle == select_handle);
                    lemma_root_place(open_path(self.log@), given, self.root_index@);
                    lemma_place_of(given, select_handle, select_index as int);
                }
                return Some(select_index);
            } else {
                self.end_selection();
            }
        }
        None
    }

    /// After an event of the selection under way has been handed on rebased,
    /// the sink holds open what the filter holds open below the root.
    proof fn lemma_selection_goes_on(&self, next: &Self, event: SinkEvent)
        requires
            self.inv(),
            self.select_handle is Some,
            !(event is Doctype),
            fits(open_path(self.log@), event),
            0 <= self.root_index@ < context_of(event).len(),
            has_handle(context_of(event), self.select_handle->0),
            place_of(context_of(event), self.select_handle->0) == self.root_index@,
            next.matcher == self.matcher,
            next.base == self.base,
            next.select_handle == self.select_handle,
            next.root_index == self.root_index,
            next.log@ == self.log@.push(event),
            next.inner.inv(),
            next.inner.received() == self.inner.received().push(
                rebased_at(event, self.root_index@),
            ),
        ensures
            next.inv(),
    {
        let index = self.root_index@;
        lemma_well_formed_push(self.log@, event);
        lemma_selection_push(self.matcher, self.log@, event);
        lemma_rebased_fits(open_path(self.log@), event, index);
        self.inner.lemma_received_well_formed();
        lemma_well_formed_push(self.inner.received(), rebased_at(event, index));
        let events = selection_events(self.matcher, self.log@);
        assert((self.base@ + events).push(rebased_at(event, index)) =~= self.base@ + events.push(
            rebased_at(event, index),
        ));
    }
}

impl<S: HtmlSink, M: ContextualSelector> HtmlSink for RootFilter<S, M> {
    type Output = Vec<S::Output>;

    closed spec fn inv(&self) -> bool {
        &&& self.inner.inv()
        &&& well_formed(self.log@)
        &&& self.select_handle == selecting_at(self.matcher, self.log@)
        &&& self.inner.received() == if self.select_handle is Some {
            self.base@ + selection_events(self.matcher, self.log@)
        } else {
            self.base@
        }
        &&& match self.select_handle {
            None => true,
            Some(handle) => {
                &&& 0 <= self.root_index@ < open_path(self.log@).len()
                &&& open_path(self.log@)[self.root_index@].handle == handle
                &&& open_path(self.inner.received()) == open_path(self.log@).skip(
                    self.root_index@,
                )
            },
        }
    }

    closed spec fn received(&self) -> Seq<SinkEvent> {
        self.log@
    }

    open spec fn pending(&self) -> Seq<<S::Output as DeepView>::V> {
        if self.selecting() is Some {
            self.collected().push(self.sink().pending())
        } else {
            self.collected()
        }
    }

    open spec fn nothing() -> Seq<<S::Output as DeepView>::V> {
        Seq::empty()
    }

    proof fn lemma_received_well_formed(&self) {
    }

    fn append_doctype_to_document(&mut self, name: &str, public_id: &str, system_id: &str)
        ensures
            old(self).stepped(
                final(self),
                SinkEvent::Doctype { name: name@, public_id: public_id@, system_id: system_id@ },
            ),
    {
        let ghost event = SinkEvent::Doctype {
            name: name@,
            public_id: public_id@,
            system_id: system_id@,
        };
        proof {
            lemma_well_formed_push(self.log@, event);
            lemma_selection_push(self.matcher, self.log@, event);
        }
        self.log = Ghost(self.log@.push(event));
    }

    fn append_element(&mut self, context: HtmlContext<'_>, element: &HtmlPathElement)
        ensures
            old(self).stepped(
                final(self),
                SinkEvent::Element { context: path_view(context@), element: element@ },
            ),
    {
        let ghost event = SinkEvent::Element { context: path_view(context@), element: element@ };
        proof {
            lemma_well_formed_push(self.log@, event);
            lemma_selection_push(self.matcher, self.log@, event);
        }
        if let Some(select_index) = self.selection_root(context) {
            let rebased = slice_subrange(context, select_index, context.len());
            proof {
                assert(path_view(rebased@) =~= path_view(context@).skip(select_index as int));
                lemma_rebased_fits(open_path(self.log@), event, select_index as int);
            }
            let ghost before = *self;
            self.inner.append_element(rebased, element);
            self.log = Ghost(self.log@.push(event));
            proof {
                before.lemma_selection_goes_on(self, event);
            }
            return ;
        }
        let select = self.matcher.context_match(context, element);
        if select {
            let none: Vec<HtmlPathElement> = Vec::new();
            proof {
                assert(path_view(none@) =~= Seq::<ElementView>::empty());
                self.inner.lemma_received_well_formed();
                lemma_well_formed_push(
                    self.inner.received(),
                    SinkEvent::Element { context: Seq::empty(), element: element@ },
                );
            }
            self.inner.append_element(none.as_slice(), element);
            self.select_handle = Some(element.handle);
            self.log = Ghost(self.log@.push(event));
            self.root_index = Ghost(context@.len() as int);
            proof {
                assert(self.base@.push(
                    SinkEvent::Element { context: Seq::empty(), element: element@ },
                ) =~= self.base@ + seq![
                    SinkEvent::Element { context: Seq::empty(), element: element@ },
                ]);
                let open = open_path(self.log@);
                let index = context@.len() as int;
                assert(open[index].handle == element.handle);
                assert(open.skip(index) =~= Seq::<ElementView>::empty().push(element@));
            }
            return ;
        }
        self.log = Ghost(self.log@.push(event));
    }

    fn append_text(&mut self, context: HtmlContext<'_>, text: &str)
        ensures
            old(self).stepped(
                final(self),
                SinkEvent::Text { context: path_view(context@), text: text@ },
            ),
    {
        let ghost event = SinkEvent::Text { context: path_view(context@), text: text@ };
        proof {
            lemma_well_formed_push(self.log@, event);
            lemma_selection_push(self.matcher, self.log@, event);
        }
        if let Some(select_index) = self.selection_root(context) {
            let rebased = slice_subrange(context, select_index, context.len());
            proof {
                assert(path_view(rebased@) =~= path_view(context@).skip(select_index as int));
                lemma_rebased_fits(open_path(self.log@), event, select_index as int);
            }
            let ghost before = *self;
            self.inner.append_text(rebased, text);
            self.log = Ghost(self.log@.push(event));
            proof {
                before.lemma_selection_goes_on(self, event);
            }
            return ;
        }
        self.log = Ghost(self.log@.push(event));
    }

    fn append_comment(&mut self, context: HtmlContext<'_>, text: &str)
        ensures
            old(self).stepped(
                final(self),
                SinkEvent::Comment { context: path_view(context@), text: text@ },
            ),
    {
        let ghost event = SinkEvent::Comment { context: path_view(context@), text: text@ };
        proof {
            lemma_well_formed_push(self.log@, event);
            lemma_selection_push(self.matcher, self.log@, event);
        }
        if let Some(select_index) = self.selection_root(context) {
            let rebased = slice_subrange(context, select_index, context.len());
            proof {
                assert(path_view(rebased@) =~= path_view(context@).skip(select_index as int));
                lemma_rebased_fits(open_path(self.log@), event, select_index as int);
            }
            let ghost before = *self;
            self.inner.append_comment(rebased, text);
            self.log = Ghost(self.log@.push(event));
            proof {
                before.lemma_selection_goes_on(self, event);
            }
            return ;
        }
        self.log = Ghost(self.log@.push(event));
    }

    fn reset(&mut self) -> (out: Vec<S::Output>)
        ensures
            final(self).matcher() == old(self).matcher(),
            final(self).selecting() is None,
            final(self).collected() == Seq::<<S::Output as DeepView>::V>::empty(),
            if old(self).selecting() is Some {
                final(self).sink().received() == Seq::<SinkEvent>::empty()
            } else {
                final(self).sink() == old(self).sink()
            },
            final(self).taken_before() == final(self).sink().received(),
    {
        if self.select_handle.is_some() {
            self.end_selection();
        }
        let mut out: Vec<S::Output> = Vec::new();
        std::mem::swap(&mut self.output, &mut out);
        self.log = Ghost(Seq::empty());
        proof {
            assert(self.output.deep_view() =~= Seq::<<S::Output as DeepView>::V>::empty());
            assert(self.received() == Seq::<SinkEvent>::empty());
            assert(self.pending() == Self::nothing());
            assert(out.deep_view() == old(self).pending());
        }
        out
    }
}

} // verus!
