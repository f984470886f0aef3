//! The stage that removes whole subtrees from the stream.

use vstd::prelude::*;
use crate::element::{
    ElementView, HtmlContext, HtmlPathElement, has_handle, path_view, position_of_handle,
};
use crate::event::{
    SinkEvent, context_of, fits, lemma_handle_in_prefix, lemma_open_path_distinct,
    lemma_well_formed_push, open_path, path_after, well_formed,
};
use crate::selector::Selector;
use crate::sink::HtmlSink;

verus! {

/// Whether an event with the context `context` lies in the subtree that is
/// being removed: the handle of that subtree's root is in the context.
pub open spec fn in_removed(skip: Option<u32>, context: Seq<ElementView>) -> bool {
    skip is Some && has_handle(context, skip->0)
}

/// Whether a remover that is removing `skip` keeps `event` out of its sink.
/// It does so for what lies in the removed subtree and for an element that
/// the matcher takes; a doctype always passes.
pub open spec fn removes<M: Selector>(matcher: M, skip: Option<u32>, event: SinkEvent) -> bool {
    match event {
        SinkEvent::Doctype { .. } => false,
        SinkEvent::Element { context, element } => in_removed(skip, context) || matcher.selects(
            context,
            element,
        ),
        SinkEvent::Text { context, .. } => in_removed(skip, context),
        SinkEvent::Comment { context, .. } => in_removed(skip, context),
    }
}

/// The subtree that a remover is removing once it has taken `event`, by the
/// handle of its root. A removal goes on while its root is in the context;
/// an element that the matcher takes starts one.
pub open spec fn removing_after<M: Selector>(matcher: M, skip: Option<u32>, event: SinkEvent)
    -> Option<u32> {
    match event {
        SinkEvent::Doctype { .. } => skip,
        SinkEvent::Element { context, element } => if in_removed(skip, context) {
            skip
        } else if matcher.selects(context, element) {
            Some(element.handle)
        } else {
            None
        },
        SinkEvent::Text { context, .. } => if in_removed(skip, context) {
            skip
        } else {
            None
        },
        SinkEvent::Comment { context, .. } => if in_removed(skip, context) {
            skip
        } else {
            None
        },
    }
}

/// The subtree that a remover is removing once it has taken the events of
/// `log`, by the handle of its root.
pub open spec fn removing_at<M: Selector>(matcher: M, log: Seq<SinkEvent>) -> Option<u32>
    decreases log.len(),
{
    if log.len() == 0 {
        None
    } else {
        removing_after(matcher, removing_at(matcher, log.drop_last()), log.last())
    }
}

/// The events of `log` that a remover hands on to its sink, in order.
pub open spec fn passed_on<M: Selector>(matcher: M, log: Seq<SinkEvent>) -> Seq<SinkEvent>
    decreases log.len(),
{
    if log.len() == 0 {
        Seq::empty()
    } else if removes(matcher, removing_at(matcher, log.drop_last()), log.last()) {
        passed_on(matcher, log.drop_last())
    } else {
        passed_on(matcher, log.drop_last()).push(log.last())
    }
}

/// A stage that drops every element its matcher takes, with all that the
/// element holds.
pub struct ElementRemover<S: HtmlSink, M: Selector> {
    inner: S,
    matcher: M,
    skip_handle: Option<u32>,
    log: Ghost<Seq<SinkEvent>>,
    base: Ghost<Seq<SinkEvent>>,
}

impl<S: HtmlSink, M: Selector> ElementRemover<S, M> {
    /// The sink that the remover feeds.
    pub closed spec fn sink(&self) -> S {
        self.inner
    }

    /// The matcher that decides what is removed.
    pub closed spec fn matcher(&self) -> M {
        self.matcher
    }

    /// The handle of the root of the subtree that is being removed, if any is.
    pub closed spec fn removing(&self) -> Option<u32> {
        self.skip_handle
    }

    /// The events that the sink had taken when the remover began to feed it.
    pub closed spec fn taken_before(&self) -> Seq<SinkEvent> {
        self.base@
    }

    /// Over the whole stream: the remover is removing what the events it has
    /// taken leave under removal, and its sink has taken, since the remover
    /// began to feed it, the events that were not removed.
    pub proof fn lemma_stream(&self)
        requires
            self.inv(),
        ensures
            self.removing() == removing_at(self.matcher(), self.received()),
            self.sink().received() == self.taken_before() + passed_on(
                self.matcher(),
                self.received(),
            ),
    {
    }

    /// What the step of one event does, seen from outside.
    pub open spec fn stepped(&self, next: &Self, event: SinkEvent) -> bool {
        &&& next.matcher() == self.matcher()
        &&& next.taken_before() == self.taken_before()
        &&& next.received() == self.received().push(event)
        &&& next.removing() == removing_after(self.matcher(), self.removing(), event)
        &&& if removes(self.matcher(), self.removing(), event) {
            next.sink() == self.sink()
        } else {
            next.sink().received() == self.sink().received().push(event)
        }
    }

    /// A remover around `sink` that removes what `matcher` takes.
    pub fn wrap(sink: S, matcher: M) -> (remover: Self)
        requires
            sink.inv(),
        ensures
            remover.inv(),
            remover.sink() == sink,
            remover.matcher() == matcher,
            remover.removing() is None,
            remover.received() == Seq::<SinkEvent>::empty(),
            remover.taken_before() == sink.received(),
    {
        let remover = ElementRemover {
            inner: sink,
            matcher,
            skip_handle: None,
            log: Ghost(Seq::empty()),
            base: Ghost(sink.received()),
        };
        proof {
            assert(sink.received() + passed_on(matcher, remover.log@) =~= sink.received());
        }
        remover
    }

    /// Ends the removal that is under way if `context` has left its subtree,
    /// and says whether the event that carries `context` lies in it.
    fn in_skip_range(&mut self, context: HtmlContext<'_>) -> (inside: bool)
        requires
            old(self).inv(),
            path_view(context@).is_prefix_of(open_path(old(self).log@)),
        ensures
            inside == in_removed(old(self).skip_handle, path_view(context@)),
            final(self).inner == old(self).inner,
            final(self).matcher == old(self).matcher,
            final(self).log == old(self).log,
            final(self).base == old(self).base,
            final(self).skip_handle == if inside {
                old(self).skip_handle
            } else {
                None
            },
            !inside ==> path_view(context@).is_prefix_of(open_path(old(self).inner.received())),
    {
        let ghost open = open_path(self.log@);
        proof {
            lemma_open_path_distinct(self.log@);
        }
        if let Some(skip_handle) = self.skip_handle {
            if position_of_handle(context, skip_handle).is_some() {
                proof {
                    let i = choose|i: int|
                        0 <= i < context@.len() && context@[i].handle == skip_handle;
                    assert(path_view(context@)[i].handle == skip_handle);
                }
                return true;
            } else {
                proof {
                    let index = choose|index: int|
                        0 <= index < open.len() && (#[trigger] open[index]).handle == skip_handle
                            && open.take(index).is_prefix_of(open_path(self.inner.received()));
                    lemma_handle_in_prefix(path_view(context@), open, index);
                }
                self.skip_handle = None;
            }
        }
        false
    }
}

impl<S: HtmlSink, M: Selector> HtmlSink for ElementRemover<S, M> {
    type Output = S::Output;

    closed spec fn inv(&self) -> bool {
        &&& self.inner.inv()
        &&& well_formed(self.log@)
        &&& self.skip_handle == removing_at(self.matcher, self.log@)
        &&& self.inner.received() == self.base@ + passed_on(self.matcher, self.log@)
        &&& match self.skip_handle {
            None => open_path(self.log@).is_prefix_of(open_path(self.inner.received())),
            Some(handle) => exists|index: int|
                0 <= index < open_path(self.log@).len() && (#[trigger] open_path(
                    self.log@,
                )[index]).handle == handle && open_path(self.log@).take(index).is_prefix_of(
                    open_path(self.inner.received()),
                ),
        }
    }

    closed spec fn received(&self) -> Seq<SinkEvent> {
        self.log@
    }

    open spec fn pending(&self) -> <S::Output as DeepView>::V {
        self.sink().pending()
    }

    open spec fn nothing() -> <S::Output as DeepView>::V {
        S::nothing()
    }

    proof fn lemma_received_well_formed(&self) {
    }

    fn append_doctype_to_document(&mut self, name: &str, public_id: &str, system_id: &str)
        ensures
            old(self).stepped(
                final(self),
                SinkEvent::Doctype { name: name@, public_id: public_id@, system_id: system_id@ },
            ),
    {
        let ghost event = SinkEvent::Doctype {
            name: name@,
            public_id: public_id@,
            system_id: system_id@,
        };
        proof {
            lemma_well_formed_push(self.log@, event);
            self.inner.lemma_received_well_formed();
            lemma_well_formed_push(self.inner.received(), event);
            lemma_passed_on_push(self.matcher, self.base@, self.log@, event);
        }
        self.inner.append_doctype_to_document(name, public_id, system_id);
        self.log = Ghost(self.log@.push(event));
    }

    fn append_element(&mut self, context: HtmlContext<'_>, element: &HtmlPathElement)
        ensures
            old(self).stepped(
                final(self),
                SinkEvent::Element { context: path_view(context@), element: element@ },
            ),
    {
        let ghost event = SinkEvent::Element { context: path_view(context@), element: element@ };
        proof {
            lemma_well_formed_push(self.log@, event);
            lemma_passed_on_push(self.matcher, self.base@, self.log@, event);
        }
        if self.in_skip_range(context) {
            proof {
                self.lemma_still_removing(event);
            }
            self.log = Ghost(self.log@.push(event));
            return ;
        }
        let skip = self.matcher.context_match(context, element);
        if skip {
            self.skip_handle = Some(element.handle);
            self.log = Ghost(self.log@.push(event));
            proof {
                let path = open_path(self.log@);
                let index = context@.len() as int;
                assert(path[index].handle == element.handle);
                assert(path.take(index) =~= path_view(context@));
            }
            return ;
        }
        proof {
            self.inner.lemma_received_well_formed();
            lemma_well_formed_push(self.inner.received(), event);
        }
        self.inner.append_element(context, element);
        self.log = Ghost(self.log@.push(event));
    }

    fn append_text(&mut self, context: HtmlContext<'_>, text: &str)
        ensures
            old(self).stepped(
                final(self),
                SinkEvent::Text { context: path_view(context@), text: text@ },
            ),
    {
        let ghost event = SinkEvent::Text { context: path_view(context@), text: text@ };
        proof {
            lemma_well_formed_push(self.log@, event);
            lemma_passed_on_push(self.matcher, self.base@, self.log@, event);
        }
        if self.in_skip_range(context) {
            proof {
                self.lemma_still_removing(event);
            }
            self.log = Ghost(self.log@.push(event));
            return ;
        }
        proof {
            self.inner.lemma_received_well_formed();
            lemma_well_formed_push(self.inner.received(), event);
        }
        self.inner.append_text(context, text);
        self.log = Ghost(self.log@.push(event));
    }

    fn append_comment(&mut self, context: HtmlContext<'_>, text: &str)
        ensures
            old(self).stepped(
                final(self),
                SinkEvent::Comment { context: path_view(context@), text: text@ },
            ),
    {
        let ghost event = SinkEvent::Comment { context: path_view(context@), text: text@ };
        proof {
            lemma_well_formed_push(self.log@, event);
            lemma_passed_on_push(self.matcher, self.base@, self.log@, event);
        }
        if self.in_skip_range(context) {
            proof {
                self.lemma_still_removing(event);
            }
            self.log = Ghost(self.log@.push(event));
            return ;
        }
        proof {
            self.inner.lemma_received_well_formed();
            lemma_well_formed_push(self.inner.received(), event);
        }
        self.inner.append_comment(context, text);
        self.log = Ghost(self.log@.push(event));
    }

    fn reset(&mut self) -> (out: S::Output)
        ensures
            final(self).matcher() == old(self).matcher(),
            final(self).removing() is None,
            final(self).sink().received() == Seq::<SinkEvent>::empty(),
            final(self).taken_before() == Seq::<SinkEvent>::empty(),
    {
        self.skip_handle = None;
        self.log = Ghost(Seq::empty());
        self.base = Ghost(Seq::empty());
        let out = self.inner.reset();
        proof {
            assert(open_path(self.log@) =~= Seq::<ElementView>::empty());
            assert(self.base@ + passed_on(self.matcher, self.log@) =~= Seq::<SinkEvent>::empty());
            assert(self.received() == Seq::<SinkEvent>::empty());
            assert(self.pending() == Self::nothing());
        }
        out
    }
}

impl<S: HtmlSink, M: Selector> ElementRemover<S, M> {
    /// An event from inside the removed subtree leaves the root of that
    /// subtree where it stands in the open path.
    proof fn lemma_still_removing(&self, event: SinkEvent)
        requires
            self.inv(),
            !(event is Doctype),
            fits(open_path(self.log@), event),
            in_removed(self.skip_handle, context_of(event)),
        ensures
            (ElementRemover {
                inner: self.inner,
                matcher: self.matcher,
                skip_handle: self.skip_handle,
                log: Ghost(self.log@.push(event)),
                base: self.base,
            }).inv(),
    {
        let open = open_path(self.log@);
        let handle = self.skip_handle->0;
        let context = context_of(event);
        lemma_well_formed_push(self.log@, event);
        lemma_open_path_distinct(self.log@);
        let index = choose|index: int|
            0 <= index < open.len() && (#[trigger] open[index]).handle == handle && open.take(
                index,
            ).is_prefix_of(open_path(self.inner.received()));
        lemma_handle_in_prefix(context, open, index);
        let after = path_after(open, event);
        assert(after[index] == open[index]);
        assert(after.take(index) =~= open.take(index));
        lemma_passed_on_push(self.matcher, self.base@, self.log@, event);
    }
}

/// What one more event adds to what a remover is removing and to what it
/// hands on.
pub proof fn lemma_passed_on_push<M: Selector>(
    matcher: M,
    base: Seq<SinkEvent>,
    log: Seq<SinkEvent>,
    event: SinkEvent,
)
    ensures
        removing_at(matcher, log.push(event)) == removing_after(
            matcher,
            removing_at(matcher, log),
            event,
        ),
        passed_on(matcher, log.push(event)) == if removes(
            matcher,
            removing_at(matcher, log),
            event,
        ) {
            passed_on(matcher, log)
        } else {
            passed_on(matcher, log).push(event)
        },
        base + passed_on(matcher, log).push(event) == (base + passed_on(matcher, log)).push(event),
{
    assert(log.push(event).drop_last() =~= log);
    assert(base + passed_on(matcher, log).push(event) =~= (base + passed_on(matcher, log)).push(
        event,
    ));
}

} // verus!
