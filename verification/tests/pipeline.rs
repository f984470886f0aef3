//! Whole documents and fragments, parsed by html5ever and streamed through
//! the stages.

use std::borrow::Cow;
use std::collections::HashMap;

use html5ever::tendril::{StrTendril, TendrilSink};
use html5ever::tree_builder::{ElementFlags, NodeOrText as BuilderChild, QuirksMode, TreeSink};
use html5ever::{ExpandedName, LocalName, Namespace, ParseOpts};
use html_sink::{
    Attribute, ClassSelector, ElementRemover, ElementSkipper, Event, EventCollector,
    HtmlPathElement, HtmlSerializer, HtmlSink, NameSelector, NodeOrText, ParseTraverser, QualName,
    RootFilter, SerializeOpts,
};

/// The handles of the context of every event but a doctype.
fn contexts(events: &[Event]) -> Vec<Vec<u32>> {
    let handles = |context: &Vec<HtmlPathElement>| context.iter().map(|e| e.handle).collect();
    events
        .iter()
        .filter_map(|event| match event {
            Event::Doctype { .. } => None,
            Event::Element { context, .. } => Some(handles(context)),
            Event::Text { context, .. } => Some(handles(context)),
            Event::Comment { context, .. } => Some(handles(context)),
        })
        .collect()
}

fn one_is_prefix_of_the_other(a: &[u32], b: &[u32]) -> bool {
    a.starts_with(b) || b.starts_with(a)
}

struct Builder<I: HtmlSink> {
    traverser: ParseTraverser<I>,
    names: HashMap<u32, html5ever::QualName>,
}

impl<I: HtmlSink> Builder<I> {
    fn document(sink: I) -> Self {
        Builder { traverser: ParseTraverser::new_document(sink), names: HashMap::new() }
    }

    fn fragment(sink: I) -> Self {
        Builder { traverser: ParseTraverser::new_fragment(sink), names: HashMap::new() }
    }
}

fn plain_name(name: &html5ever::QualName) -> QualName {
    QualName {
        prefix: name.prefix.as_ref().map(|p| p.to_string()),
        ns: name.ns.to_string(),
        local: name.local.to_string(),
    }
}

impl<I: HtmlSink> TreeSink for Builder<I> {
    type Handle = u32;
    type Output = Result<I::Output, String>;

    fn finish(self) -> Self::Output {
        self.traverser.finish()
    }

    fn parse_error(&mut self, msg: Cow<'static, str>) {
        self.traverser.parse_error(msg.into_owned());
    }

    fn get_document(&mut self) -> u32 {
        self.traverser.get_document()
    }

    fn elem_name<'a>(&'a self, target: &'a u32) -> ExpandedName<'a> {
        assert!(self.traverser.element(*target).is_some());
        self.names[target].expanded()
    }

    fn create_element(
        &mut self,
        name: html5ever::QualName,
        attrs: Vec<html5ever::Attribute>,
        _flags: ElementFlags,
    ) -> u32 {
        assert!(self.traverser.handle() < u32::MAX);
        let attrs = attrs
            .iter()
            .map(|a| Attribute { name: plain_name(&a.name), value: a.value.to_string() })
            .collect();
        let handle = self.traverser.create_element(plain_name(&name), attrs);
        self.names.insert(handle, name);
        handle
    }

    fn create_comment(&mut self, text: StrTendril) -> u32 {
        assert!(self.traverser.handle() < u32::MAX);
        self.traverser.create_comment(text.to_string())
    }

    fn create_pi(&mut self, _target: StrTendril, _data: StrTendril) -> u32 {
        panic!("processing instructions are not supported")
    }

    fn append(&mut self, parent: &u32, child: BuilderChild<u32>) {
        let child = match child {
            BuilderChild::AppendNode(handle) => NodeOrText::AppendNode(handle),
            BuilderChild::AppendText(text) => NodeOrText::AppendText(text.to_string()),
        };
        self.traverser.append(*parent, child).unwrap();
    }

    fn append_based_on_parent_node(&mut self, _element: &u32, _prev: &u32, _child: BuilderChild<u32>) {
        panic!("appending relative to a parent node is not supported")
    }

    fn append_doctype_to_document(
        &mut self,
        name: StrTendril,
        public_id: StrTendril,
        system_id: StrTendril,
    ) {
        self.traverser.append_doctype_to_document(&name, &public_id, &system_id);
    }

    fn get_template_contents(&mut self, _target: &u32) -> u32 {
        panic!("template contents are not supported")
    }

    fn same_node(&self, x: &u32, y: &u32) -> bool {
        self.traverser.same_node(*x, *y)
    }

    fn set_quirks_mode(&mut self, _mode: QuirksMode) {}

    fn append_before_sibling(&mut self, _sibling: &u32, _new_node: BuilderChild<u32>) {
        panic!("inserting before a sibling is not supported")
    }

    fn add_attrs_if_missing(&mut self, _target: &u32, _attrs: Vec<html5ever::Attribute>) {
        panic!("adding attributes is not supported")
    }

    fn remove_from_parent(&mut self, _target: &u32) {
        panic!("removing a node is not supported")
    }

    fn reparent_children(&mut self, _node: &u32, _new_parent: &u32) {
        panic!("reparenting is not supported")
    }
}

fn exact_errors() -> ParseOpts {
    let mut opts = ParseOpts::default();
    opts.tree_builder.exact_errors = true;
    opts
}

fn stream_doc<I: HtmlSink>(test: &str, sink: I) -> I::Output {
    let parser = html5ever::parse_document(Builder::document(sink), exact_errors());
    parser.one(test).unwrap()
}

fn stream_fragment<I: HtmlSink>(test: &str, sink: I) -> I::Output {
    let context_name = html5ever::QualName::new(
        None,
        Namespace::from("http://www.w3.org/1999/xhtml"),
        LocalName::from("body"),
    );
    let sink = Builder::fragment(ElementSkipper::wrap(sink, NameSelector::new("html")));
    let parser = html5ever::parse_fragment(sink, exact_errors(), context_name, vec![]);
    parser.one(test).unwrap()
}

fn serialiser() -> HtmlSerializer {
    HtmlSerializer::new(SerializeOpts::default())
}

#[test]
fn doc_identity() {
    let test = "<!DOCTYPE html><html><head></head><body><!-- comment --><p><b>hello</b></p><p>world!</p></body></html>";
    let buf = stream_doc(test, serialiser());
    assert_eq!(String::from_utf8(buf).unwrap(), test);
}

#[test]
fn fragment_identity() {
    let mut opts = SerializeOpts::default();
    opts.traversal_scope = html_sink::TraversalScope::ChildrenOnly(None);
    let sink = HtmlSerializer::new(opts);
    let test = "<p><b>hello</b></p><p>world!</p>";
    let buf = stream_fragment(test, sink);
    assert_eq!(String::from_utf8(buf).unwrap(), test);
}

#[test]
fn remove_elements() {
    let test = r#"<!DOCTYPE html><html><head></head><body><p class="hello"><!-- comment --><b>hello</b></p><p>world!</p></body></html>"#;
    let buf = stream_doc(test, ElementRemover::wrap(serialiser(), ClassSelector::new("hello")));
    assert_eq!(
        String::from_utf8(buf).unwrap(),
        r#"<!DOCTYPE html><html><head></head><body><p>world!</p></body></html>"#
    );
}

#[test]
fn select_element() {
    let sink = RootFilter::wrap(serialiser(), NameSelector::new("p"));
    let test = "<!DOCTYPE html><html><head></head><body><p><!-- comment --><b>hello</b></p><p>world!</p></body></html>";
    let outputs = stream_doc(test, sink);
    let buf = outputs.concat();
    assert_eq!(buf, b"<p><!-- comment --><b>hello</b></p><p>world!</p>");
}

#[test]
fn extract_data() {}

#[test]
fn select_element_gives_one_output_per_subtree() {
    let sink = RootFilter::wrap(serialiser(), NameSelector::new("p"));
    let test = "<!DOCTYPE html><html><head></head><body><p><!-- comment --><b>hello</b></p><p>world!</p></body></html>";
    let outputs = stream_doc(test, sink);
    assert_eq!(
        outputs,
        vec![b"<p><!-- comment --><b>hello</b></p>".to_vec(), b"<p>world!</p>".to_vec()]
    );
}

#[test]
fn select_nothing_gives_no_output() {
    let sink = RootFilter::wrap(serialiser(), NameSelector::new("table"));
    let outputs = stream_doc("<!DOCTYPE html><html><head></head><body><p>a</p></body></html>", sink);
    assert!(outputs.is_empty());
}

#[test]
fn fan_out_gives_what_each_sink_gives_alone() {
    let test = r#"<!DOCTYPE html><html><head></head><body><p class="hello"><b>hello</b></p><p>world!</p></body></html>"#;
    let alone_first = stream_doc(test, ElementRemover::wrap(serialiser(), ClassSelector::new("hello")));
    let alone_second = stream_doc(test, RootFilter::wrap(serialiser(), NameSelector::new("p")));
    let pair = (
        ElementRemover::wrap(serialiser(), ClassSelector::new("hello")),
        RootFilter::wrap(serialiser(), NameSelector::new("p")),
    );
    let (first, second) = stream_doc(test, pair);
    assert_eq!(first, alone_first);
    assert_eq!(second, alone_second);
    assert_eq!(
        String::from_utf8(first).unwrap(),
        "<!DOCTYPE html><html><head></head><body><p>world!</p></body></html>"
    );
    assert_eq!(
        second,
        vec![br#"<p class="hello"><b>hello</b></p>"#.to_vec(), b"<p>world!</p>".to_vec()]
    );
}

#[test]
fn skipper_reparents_children_of_skipped_elements() {
    let test = "<!DOCTYPE html><html><head></head><body><div><p>a</p><div><b>c</b></div></div><p>d</p></body></html>";
    let buf = stream_doc(test, ElementSkipper::wrap(serialiser(), NameSelector::new("div")));
    assert_eq!(
        String::from_utf8(buf).unwrap(),
        "<html><head></head><body><p>a</p><b>c</b><p>d</p></body></html>"
    );
}

#[test]
fn void_elements_and_escapes_survive_the_round_trip() {
    let test = r#"<!DOCTYPE html><html><head><meta charset="utf-8"></head><body><p title="a &amp; &quot;b&quot;">x &lt; y<br>z</p></body></html>"#;
    let buf = stream_doc(test, serialiser());
    assert_eq!(String::from_utf8(buf).unwrap(), test);
}

#[test]
fn parse_error_is_latched_and_returned() {
    let parser = html5ever::parse_document(Builder::document(serialiser()), exact_errors());
    let outcome = parser.one("<p>no doctype</p>");
    assert!(outcome.is_err());
}

#[test]
fn remover_drops_nested_matches_with_their_subtree() {
    let test = r#"<!DOCTYPE html><html><head></head><body><div class="x"><p class="x">a</p>b</div><p>c</p><p class="y x">d</p>e</body></html>"#;
    let buf = stream_doc(test, ElementRemover::wrap(serialiser(), ClassSelector::new("x")));
    assert_eq!(
        String::from_utf8(buf).unwrap(),
        "<!DOCTYPE html><html><head></head><body><p>c</p>e</body></html>"
    );
}

#[test]
fn contexts_of_consecutive_events_are_prefixes_of_one_another() {
    let test = r#"<!DOCTYPE html><html><head><title>t</title></head><body><div><p class="hello"><b>a</b>b</p><!-- c --><ul><li>x</li><li>y</li></ul></div><p>world!</p></body></html>"#;
    let direct = contexts(&stream_doc(test, EventCollector::new()));
    assert!(direct.len() > 10);
    assert_eq!(direct[0], Vec::<u32>::new());
    for pair in direct.windows(2) {
        assert!(one_is_prefix_of_the_other(&pair[0], &pair[1]));
    }
    let removed = contexts(&stream_doc(
        test,
        ElementRemover::wrap(EventCollector::new(), ClassSelector::new("hello")),
    ));
    let skipped = contexts(&stream_doc(
        test,
        ElementSkipper::wrap(EventCollector::new(), NameSelector::new("div")),
    ));
    let selected: Vec<Vec<Vec<u32>>> = stream_doc(
        test,
        RootFilter::wrap(EventCollector::new(), NameSelector::new("li")),
    )
    .iter()
    .map(|events| contexts(events))
    .collect();
    assert!(removed.len() < direct.len());
    assert!(!skipped.is_empty());
    assert_eq!(selected.len(), 2);
    for contexts in [removed, skipped].iter().chain(selected.iter()) {
        for pair in contexts.windows(2) {
            assert!(one_is_prefix_of_the_other(&pair[0], &pair[1]));
        }
    }
    for contexts in &selected {
        assert_eq!(contexts.len(), 2);
        assert_eq!(contexts[0], Vec::<u32>::new());
        assert_eq!(contexts[1].len(), 1);
    }
}

#[test]
fn handles_in_a_context_are_distinct() {
    let test = "<!DOCTYPE html><html><head></head><body><div><div><div><p>a</p></div></div></div></body></html>";
    let contexts = contexts(&stream_doc(test, EventCollector::new()));
    for context in &contexts {
        let mut seen = context.clone();
        seen.sort();
        seen.dedup();
        assert_eq!(seen.len(), context.len());
    }
    assert_eq!(contexts.iter().map(|c| c.len()).max(), Some(6));
}

#[test]
fn the_adapter_reports_the_document_in_order() {
    let events = stream_doc(
        "<!DOCTYPE html><html><head></head><body><p id=\"a\">x</p><!--c--></body></html>",
        EventCollector::new(),
    );
    let shown: Vec<String> = events
        .iter()
        .map(|event| match event {
            Event::Doctype { name, .. } => format!("doctype {}", name),
            Event::Element { context, element } => {
                format!("{} {}", context.len(), element.describe())
            }
            Event::Text { context, text } => format!("{} text {}", context.len(), text),
            Event::Comment { context, text } => format!("{} comment {}", context.len(), text),
        })
        .collect();
    assert_eq!(
        shown,
        vec![
            "doctype html",
            "0 #1 <html>",
            "1 #2 <head>",
            "1 #3 <body>",
            "2 #4 <p id=\"a\">",
            "3 text x",
            "2 comment c",
        ]
    );
}
