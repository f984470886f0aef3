//! A terminal sink that keeps the events it is given.

use vstd::prelude::*;
use crate::element::{HtmlContext, HtmlPathElement, clone_path, path_view};
use crate::event::{SinkEvent, lemma_well_formed_push, well_formed};
use crate::sink::HtmlSink;

verus! {

/// One call into a sink, with copies of what the call was given.
#[derive(Debug)]
pub enum Event {
    Doctype { name: String, public_id: String, system_id: String },
    Element { context: Vec<HtmlPathElement>, element: HtmlPathElement },
    Text { context: Vec<HtmlPathElement>, text: String },
    Comment { context: Vec<HtmlPathElement>, text: String },
}

impl DeepView for Event {
    type V = SinkEvent;

    open spec fn deep_view(&self) -> SinkEvent {
        match self {
            Event::Doctype { name, public_id, system_id } => SinkEvent::Doctype {
                name: name@,
                public_id: public_id@,
                system_id: system_id@,
            },
            Event::Element { context, element } => SinkEvent::Element {
                context: path_view(context@),
                element: element@,
            },
            Event::Text { context, text } => SinkEvent::Text {
                context: path_view(context@),
                text: text@,
            },
            Event::Comment { context, text } => SinkEvent::Comment {
                context: path_view(context@),
                text: text@,
            },
        }
    }
}

/// The values of a list of events, in the same order.
pub open spec fn events_view(events: Seq<Event>) -> Seq<SinkEvent> {
    events.map_values(|e: Event| e.deep_view())
}

/// A sink that hands back the events it has taken, in order.
pub struct EventCollector {
    events: Vec<Event>,
}

impl EventCollector {
    /// A collector that has taken nothing.
    pub fn new() -> (collector: Self)
        ensures
            collector.inv(),
            collector.received() == Seq::<SinkEvent>::empty(),
    {
        let collector = EventCollector { events: Vec::new() };
        proof {
            assert(events_view(collector.events@) =~= Seq::<SinkEvent>::empty());
        }
        collector
    }

    /// Keeps one more event.
    fn keep(&mut self, event: Event)
        requires
            well_formed(events_view(old(self).events@).push(event.deep_view())),
        ensures
            final(self).inv(),
            final(self).received() == old(self).received().push(event.deep_view()),
    {
        proof {
            assert(events_view(self.events@.push(event)) =~= events_view(self.events@).push(
                event.deep_view(),
            ));
        }
        self.events.push(event);
    }
}

impl HtmlSink for EventCollector {
    type Output = Vec<Event>;

    closed spec fn inv(&self) -> bool {
        well_formed(events_view(self.events@))
    }

    closed spec fn received(&self) -> Seq<SinkEvent> {
        events_view(self.events@)
    }

    open spec fn pending(&self) -> Seq<SinkEvent> {
        self.received()
    }

    open spec fn nothing() -> Seq<SinkEvent> {
        Seq::empty()
    }

    proof fn lemma_received_well_formed(&self) {
    }

    fn append_doctype_to_document(&mut self, name: &str, public_id: &str, system_id: &str) {
        let event = Event::Doctype {
            name: name.to_owned(),
            public_id: public_id.to_owned(),
            system_id: system_id.to_owned(),
        };
        proof {
            lemma_well_formed_push(self.received(), event.deep_view());
        }
        self.keep(event);
    }

    fn append_element(&mut self, context: HtmlContext<'_>, element: &HtmlPathElement) {
        let event = Event::Element { context: clone_path(context), element: element.clone() };
        proof {
            lemma_well_formed_push(self.received(), event.deep_view());
        }
        self.keep(event);
    }

    fn append_text(&mut self, context: HtmlContext<'_>, text: &str) {
        let event = Event::Text { context: clone_path(context), text: text.to_owned() };
        proof {
            lemma_well_formed_push(self.received(), event.deep_view());
        }
        self.keep(event);
    }

    fn append_comment(&mut self, context: HtmlContext<'_>, text: &str) {
        let event = Event::Comment { context: clone_path(context), text: text.to_owned() };
        proof {
            lemma_well_formed_push(self.received(), event.deep_view());
        }
        self.keep(event);
    }

    fn reset(&mut self) -> (out: Vec<Event>) {
        let mut out: Vec<Event> = Vec::new();
        std::mem::swap(&mut self.events, &mut out);
        proof {
            assert(out.deep_view() =~= events_view(out@));
            assert(events_view(self.events@) =~= Seq::<SinkEvent>::empty());
            assert(self.received() == Seq::<SinkEvent>::empty());
            assert(self.pending() == Self::nothing());
        }
        out
    }
}

} // verus!
