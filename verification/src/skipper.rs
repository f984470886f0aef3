//! The stage that leaves single elements out of the stream and keeps what
//! they hold.

use vstd::prelude::*;
use crate::element::{ElementView, HtmlContext, HtmlPathElement, has_handle, path_view};
use crate::event::{SinkEvent, lemma_well_formed_push, open_path, well_formed};
use crate::selector::Selector;
use crate::sink::HtmlSink;

verus! {

/// The elements of `path` that the matcher does not take, in order.
pub open spec fn retained<M: Selector>(matcher: M, path: Seq<ElementView>) -> Seq<ElementView> {
    path.filter(|e: ElementView| !matcher.matches(e))
}

/// What a skipper hands on for `event`, if anything: nothing for a doctype and
/// for an element that the matcher takes; else the event, its context without
/// the ancestors that the matcher takes.
pub open spec fn skipped<M: Selector>(matcher: M, event: SinkEvent) -> Option<SinkEvent> {
    match event {
        SinkEvent::Doctype { .. } => None,
        SinkEvent::Element { context, element } => if matcher.matches(element) {
            None
        } else {
            Some(SinkEvent::Element { context: retained(matcher, context), element })
        },
        SinkEvent::Text { context, text } => Some(
            SinkEvent::Text { context: retained(matcher, context), text },
        ),
        SinkEvent::Comment { context, text } => Some(
            SinkEvent::Comment { context: retained(matcher, context), text },
        ),
    }
}

/// The events that a skipper hands on to its sink for the events of `log`,
/// in order.
pub open spec fn handed_on<M: Selector>(matcher: M, log: Seq<SinkEvent>) -> Seq<SinkEvent>
    decreases log.len(),
{
    if log.len() == 0 {
        Seq::empty()
    } else {
        match skipped(matcher, log.last()) {
            Some(event) => handed_on(matcher, log.drop_last()).push(event),
            None => handed_on(matcher, log.drop_last()),
        }
    }
}

/// What one more event adds to what a skipper hands on.
pub proof fn lemma_handed_on_push<M: Selector>(
    matcher: M,
    base: Seq<SinkEvent>,
    log: Seq<SinkEvent>,
    event: SinkEvent,
)
    ensures
        handed_on(matcher, log.push(event)) == match skipped(matcher, event) {
            Some(e) => handed_on(matcher, log).push(e),
            None => handed_on(matcher, log),
        },
        forall|e: SinkEvent| #[trigger]
            (base + handed_on(matcher, log)).push(e) == base + handed_on(matcher, log).push(e),
{
    assert(log.push(event).drop_last() =~= log);
    assert forall|e: SinkEvent| #[trigger]
        (base + handed_on(matcher, log)).push(e) == base + handed_on(matcher, log).push(e) by {
        assert((base + handed_on(matcher, log)).push(e) =~= base + handed_on(matcher, log).push(e));
    }
}

/// What is retained of a path with one more element.
pub proof fn lemma_retained_push<M: Selector>(matcher: M, path: Seq<ElementView>, e: ElementView)
    ensures
        retained(matcher, path.push(e)) == if matcher.matches(e) {
            retained(matcher, path)
        } else {
            retained(matcher, path).push(e)
        },
{
    path.lemma_filter_push(e, |e: ElementView| !matcher.matches(e));
}

/// What is retained of a prefix is a prefix of what is retained of the whole.
pub proof fn lemma_retained_prefix<M: Selector>(
    matcher: M,
    prefix: Seq<ElementView>,
    path: Seq<ElementView>,
)
    requires
        prefix.is_prefix_of(path),
    ensures
        retained(matcher, prefix).is_prefix_of(retained(matcher, path)),
{
    let rest = path.skip(prefix.len() as int);
    assert(path =~= prefix + rest);
    Seq::filter_distributes_over_add(prefix, rest, |e: ElementView| !matcher.matches(e));
    let kept = retained(matcher, prefix);
    assert((kept + retained(matcher, rest)).subrange(0, kept.len() as int) =~= kept);
}

/// What is retained of a path holds no handle that the path lacks.
pub proof fn lemma_retained_handles<M: Selector>(matcher: M, path: Seq<ElementView>, handle: u32)
    requires
        !has_handle(path, handle),
    ensures
        !has_handle(retained(matcher, path), handle),
    decreases path.len(),
{
    if path.len() == 0 {
        assert(retained(matcher, path) =~= Seq::<ElementView>::empty()) by {
            path.lemma_filter_len(|e: ElementView| !matcher.matches(e));
        }
    } else {
        let front = path.drop_last();
        assert(path =~= front.push(path.last()));
        assert(!has_handle(front, handle)) by {
            if has_handle(front, handle) {
                let i = choose|i: int| 0 <= i < front.len() && (#[trigger] front[i]).handle == handle;
                assert(path[i].handle == handle);
            }
        }
        lemma_retained_handles(matcher, front, handle);
        lemma_retained_push(matcher, front, path.last());
        let kept = retained(matcher, path);
        if has_handle(kept, handle) {
            let i = choose|i: int| 0 <= i < kept.len() && (#[trigger] kept[i]).handle == handle;
            if i < retained(matcher, front).len() {
                assert(retained(matcher, front)[i].handle == handle);
            } else {
                assert(path[path.len() - 1].handle == handle);
            }
        }
    }
}

/// A stage that drops every element its matcher takes, and hands on what the
/// element holds as if the element were not there.
pub struct ElementSkipper<S, M> {
    inner: S,
    matcher: M,
    log: Ghost<Seq<SinkEvent>>,
    base: Ghost<Seq<SinkEvent>>,
}

impl<S: HtmlSink, M: Selector> ElementSkipper<S, M> {
    /// The sink that the skipper feeds.
    pub closed spec fn sink(&self) -> S {
        self.inner
    }

    /// The matcher that decides what is left out.
    pub closed spec fn matcher(&self) -> M {
        self.matcher
    }

    /// The events that the sink had taken when the skipper began to feed it.
    pub closed spec fn taken_before(&self) -> Seq<SinkEvent> {
        self.base@
    }

    /// Over the whole stream: the sink has taken, since the skipper began to
    /// feed it, what the skipper hands on for the events it has taken itself.
    pub proof fn lemma_stream(&self)
        requires
            self.inv(),
        ensures
            self.sink().received() == self.taken_before() + handed_on(
                self.matcher(),
                self.received(),
            ),
    {
    }

    /// What the step of one event does, seen from outside.
    pub open spec fn stepped(&self, next: &Self, event: SinkEvent) -> bool {
        &&& next.matcher() == self.matcher()
        &&& next.taken_before() == self.taken_before()
        &&& next.received() == self.received().push(event)
        &&& match skipped(self.matcher(), event) {
            Some(handed_on) => next.sink().received() == self.sink().received().push(handed_on),
            None => next.sink() == self.sink(),
        }
    }

    /// A skipper around `inner` that leaves out what `matcher` takes.
    pub fn wrap(inner: S, matcher: M) -> (skipper: Self)
        requires
            inner.inv(),
        ensures
            skipper.inv(),
            skipper.sink() == inner,
            skipper.matcher() == matcher,
            skipper.received() == Seq::<SinkEvent>::empty(),
            skipper.taken_before() == inner.received(),
    {
        let skipper = ElementSkipper {
            inner,
            matcher,
            log: Ghost(Seq::empty()),
            base: Ghost(inner.received()),
        };
        proof {
            assert(inner.received() + handed_on(matcher, skipper.log@) =~= inner.received());
            assert(retained(matcher, open_path(skipper.log@)) =~= Seq::<ElementView>::empty()) by {
                open_path(skipper.log@).lemma_filter_len(|e: ElementView| !matcher.matches(e));
            }
        }
        skipper
    }

    /// The ancestors in `context` that the matcher does not take.
    fn filtered_path(&self, context: HtmlContext<'_>) -> (filtered: Vec<HtmlPathElement>)
        ensures
            path_view(filtered@) == retained(self.matcher, path_view(context@)),
    {
        let ghost whole = path_view(context@);
        let mut filtered: Vec<HtmlPathElement> = Vec::new();
        let mut i: usize = 0;
        proof {
            assert(retained(self.matcher, whole.take(0)) =~= Seq::<ElementView>::empty()) by {
                whole.take(0).lemma_filter_len(|e: ElementView| !self.matcher.matches(e));
            }
            assert(path_view(filtered@) =~= Seq::<ElementView>::empty());
        }
        while i < context.len()
            invariant
                i <= context@.len(),
                whole == path_view(context@),
                path_view(filtered@) == retained(self.matcher, whole.take(i as int)),
            decreases context@.len() - i,
        {
            proof {
                assert(whole.take(i + 1) =~= whole.take(i as int).push(context@[i as int]@));
                lemma_retained_push(self.matcher, whole.take(i as int), context@[i as int]@);
            }
            if !self.matcher.is_match(&context[i]) {
                let kept = context[i].clone();
                proof {
                    assert(path_view(filtered@.push(kept)) =~= path_view(filtered@).push(kept@));
                }
                filtered.push(kept);
            }
            i += 1;
        }
        proof {
            assert(whole.take(i as int) =~= whole);
        }
        filtered
    }

    /// The context that the skipper hands on in place of `context` is a
    /// prefix of what the sink holds open.
    proof fn lemma_retained_fits(&self, context: Seq<ElementView>)
        requires
            self.inv(),
            context.is_prefix_of(open_path(self.log@)),
        ensures
            retained(self.matcher, context).is_prefix_of(open_path(self.inner.received())),
            well_formed(self.inner.received()),
    {
        self.inner.lemma_received_well_formed();
        lemma_retained_prefix(self.matcher, context, open_path(self.log@));
        let kept = retained(self.matcher, context);
        let mid = retained(self.matcher, open_path(self.log@));
        let open = open_path(self.inner.received());
        assert(kept =~= open.subrange(0, kept.len() as int)) by {
            assert forall|i: int| 0 <= i < kept.len() implies kept[i] == open[i] by {
                assert(kept[i] == mid[i]);
                assert(mid[i] == open[i]);
            }
        }
    }
}

impl<S: HtmlSink, M: Selector> HtmlSink for ElementSkipper<S, M> {
    type Output = S::Output;

    closed spec fn inv(&self) -> bool {
        &&& self.inner.inv()
        &&& well_formed(self.log@)
        &&& self.inner.received() == self.base@ + handed_on(self.matcher, self.log@)
        &&& retained(self.matcher, open_path(self.log@)).is_prefix_of(
            open_path(self.inner.received()),
        )
    }

    closed spec fn received(&self) -> Seq<SinkEvent> {
        self.log@
    }

    open spec fn pending(&self) -> <S::Output as DeepView>::V {
        self.sink().pending()
    }

    open spec fn nothing() -> <S::Output as DeepView>::V {
        S::nothing()
    }

    proof fn lemma_received_well_formed(&self) {
    }

    fn append_doctype_to_document(&mut self, name: &str, public_id: &str, system_id: &str)
        ensures
            old(self).stepped(
                final(self),
                SinkEvent::Doctype { name: name@, public_id: public_id@, system_id: system_id@ },
            ),
    {
        let ghost event = SinkEvent::Doctype {
            name: name@,
            public_id: public_id@,
            system_id: system_id@,
        };
        proof {
            lemma_well_formed_push(self.log@, event);
            lemma_handed_on_push(self.matcher, self.base@, self.log@, event);
        }
        self.log = Ghost(self.log@.push(event));
    }

    fn append_element(&mut self, context: HtmlContext<'_>, element: &HtmlPathElement)
        ensures
            old(self).stepped(
                final(self),
                SinkEvent::Element { context: path_view(context@), element: element@ },
            ),
    {
        let ghost event = SinkEvent::Element { context: path_view(context@), element: element@ };
        proof {
            lemma_well_formed_push(self.log@, event);
            lemma_handed_on_push(self.matcher, self.base@, self.log@, event);
            self.lemma_retained_fits(path_view(context@));
            lemma_retained_push(self.matcher, path_view(context@), element@);
            lemma_retained_handles(self.matcher, path_view(context@), element.handle);
        }
        if self.matcher.is_match(element) {
            self.log = Ghost(self.log@.push(event));
            return ;
        }
        let filtered_path = self.filtered_path(context);
        proof {
            lemma_well_formed_push(
                self.inner.received(),
                SinkEvent::Element { context: path_view(filtered_path@), element: element@ },
            );
        }
        self.inner.append_element(filtered_path.as_slice(), element);
        self.log = Ghost(self.log@.push(event));
    }

    fn append_text(&mut self, context: HtmlContext<'_>, text: &str)
        ensures
            old(self).stepped(
                final(self),
                SinkEvent::Text { context: path_view(context@), text: text@ },
            ),
    {
        let ghost event = SinkEvent::Text { context: path_view(context@), text: text@ };
        proof {
            lemma_well_formed_push(self.log@, event);
            lemma_handed_on_push(self.matcher, self.base@, self.log@, event);
            self.lemma_retained_fits(path_view(context@));
        }
        let filtered_path = self.filtered_path(context);
        proof {
            lemma_well_formed_push(
                self.inner.received(),
                SinkEvent::Text { context: path_view(filtered_path@), text: text@ },
            );
        }
        self.inner.append_text(filtered_path.as_slice(), text);
        self.log = Ghost(self.log@.push(event));
    }

    fn append_comment(&mut self, context: HtmlContext<'_>, text: &str)
        ensures
            old(self).stepped(
                final(self),
                SinkEvent::Comment { context: path_view(context@), text: text@ },
            ),
    {
        let ghost event = SinkEvent::Comment { context: path_view(context@), text: text@ };
        proof {
            lemma_well_formed_push(self.log@, event);
            lemma_handed_on_push(self.matcher, self.base@, self.log@, event);
            self.lemma_retained_fits(path_view(context@));
        }
        let filtered_path = self.filtered_path(context);
        proof {
            lemma_well_formed_push(
                self.inner.received(),
                SinkEvent::Comment { context: path_view(filtered_path@), text: text@ },
            );
        }
        self.inner.append_comment(filtered_path.as_slice(), text);
        self.log = Ghost(self.log@.push(event));
    }

    fn reset(&mut self) -> (out: S::Output)
        ensures
            final(self).matcher() == old(self).matcher(),
            final(self).sink().received() == Seq::<SinkEvent>::empty(),
            final(self).taken_before() == Seq::<SinkEvent>::empty(),
    {
        self.log = Ghost(Seq::empty());
        self.base = Ghost(Seq::empty());
        let out = self.inner.reset();
        proof {
            assert(retained(self.matcher, open_path(self.log@)) =~= Seq::<ElementView>::empty())
                by {
                open_path(self.log@).lemma_filter_len(|e: ElementView| !self.matcher.matches(e));
            }
            assert(self.base@ + handed_on(self.matcher, self.log@) =~= Seq::<SinkEvent>::empty());
            assert(self.received() == Seq::<SinkEvent>::empty());
            assert(self.pending() == Self::nothing());
        }
        out
    }
}

} // verus!
