//! The stages and the adapter, fed by hand.

use html_sink::element::position_of_handle;
use html_sink::{
    AppendError, Attribute, ClassSelector, ContextualSelector, ElementRemover, ElementSkipper,
    Event, EventCollector, HtmlPathElement, HtmlSerializer, HtmlSink, NameSelector, NodeOrText,
    ParseTraverser, QualName, RootFilter, Selector, SerializeOpts, TraversalScope,
};

const HTML: &str = "http://www.w3.org/1999/xhtml";

fn attr(local: &str, value: &str) -> Attribute {
    Attribute { name: QualName::new("", local), value: value.to_string() }
}

fn el_with(handle: u32, local: &str, attrs: Vec<Attribute>) -> HtmlPathElement {
    HtmlPathElement { handle, name: QualName::new(HTML, local), attrs }
}

fn el(handle: u32, local: &str) -> HtmlPathElement {
    el_with(handle, local, vec![])
}

fn serialiser() -> HtmlSerializer {
    HtmlSerializer::new(SerializeOpts::default())
}

fn text_of(bytes: Vec<u8>) -> String {
    String::from_utf8(bytes).unwrap()
}

#[test]
fn serializer_writes_tags_text_and_comments() {
    let mut sink = serialiser();
    let div = el(1, "div");
    let p = el(2, "p");
    sink.append_doctype_to_document("html", "", "");
    sink.append_element(&[], &div);
    sink.append_element(&[div.clone()], &p);
    sink.append_text(&[div.clone(), p.clone()], "hello");
    sink.append_comment(&[div.clone()], " c ");
    assert_eq!(text_of(sink.reset()), "<!DOCTYPE html><div><p>hello</p><!-- c --></div>");
}

#[test]
fn serializer_closes_innermost_first() {
    let mut sink = serialiser();
    let a = el(1, "a");
    let b = el(2, "b");
    let c = el(3, "i");
    sink.append_element(&[], &a);
    sink.append_element(&[a.clone()], &b);
    sink.append_element(&[a.clone(), b.clone()], &c);
    sink.append_text(&[], "x");
    assert_eq!(text_of(sink.finish()), "<a><b><i></i></b></a>x");
}

#[test]
fn serializer_void_element_has_no_end_tag() {
    let mut sink = serialiser();
    let p = el(1, "p");
    let br = el(2, "br");
    sink.append_element(&[], &p);
    sink.append_element(&[p.clone()], &br);
    sink.append_text(&[p.clone()], "x");
    assert_eq!(text_of(sink.reset()), "<p><br>x</p>");
}

#[test]
fn serializer_leaves_out_elements_below_a_void_element() {
    let mut sink = serialiser();
    let img = el(1, "img");
    let b = el(2, "b");
    sink.append_element(&[], &img);
    sink.append_element(&[img.clone()], &b);
    sink.append_element(&[], &el(3, "p"));
    assert_eq!(text_of(sink.reset()), "<img><p></p>");
}

#[test]
fn serializer_escapes_text_and_attributes() {
    let mut sink = serialiser();
    let a = el_with(1, "a", vec![attr("title", "x\"&<y"), attr("href", "u")]);
    sink.append_element(&[], &a);
    sink.append_text(&[a.clone()], "a<b>&c\u{a0}\"");
    assert_eq!(
        text_of(sink.reset()),
        "<a title=\"x&quot;&amp;<y\" href=\"u\">a&lt;b&gt;&amp;c&nbsp;\"</a>"
    );
}

#[test]
fn serializer_writes_raw_text_in_script() {
    let mut sink = serialiser();
    let script = el(1, "script");
    sink.append_element(&[], &script);
    sink.append_text(&[script.clone()], "a<b&c");
    assert_eq!(text_of(sink.reset()), "<script>a<b&c</script>");
}

#[test]
fn serializer_noscript_follows_the_scripting_flag() {
    let noscript = el(1, "noscript");
    let mut on = serialiser();
    on.append_element(&[], &noscript);
    on.append_text(&[noscript.clone()], "a<b");
    assert_eq!(text_of(on.reset()), "<noscript>a<b</noscript>");
    let mut opts = SerializeOpts::default();
    opts.scripting_enabled = false;
    let mut off = HtmlSerializer::new(opts);
    off.append_element(&[], &noscript);
    off.append_text(&[noscript.clone()], "a<b");
    assert_eq!(text_of(off.reset()), "<noscript>a&lt;b</noscript>");
}

#[test]
fn serializer_takes_the_root_name_from_its_scope() {
    let opts = SerializeOpts {
        scripting_enabled: true,
        traversal_scope: TraversalScope::ChildrenOnly(Some(QualName::new(HTML, "style"))),
        create_missing_parent: false,
    };
    let mut sink = HtmlSerializer::new(opts);
    sink.append_text(&[], "a<b");
    assert_eq!(text_of(sink.reset()), "a<b");
    let mut plain = serialiser();
    plain.append_text(&[], "a<b");
    assert_eq!(text_of(plain.reset()), "a&lt;b");
}

#[test]
fn serializer_prefixes_attributes_of_known_namespaces() {
    let mut sink = serialiser();
    let href = Attribute {
        name: QualName {
            prefix: Some("xlink".to_string()),
            ns: "http://www.w3.org/1999/xlink".to_string(),
            local: "href".to_string(),
        },
        value: "#a".to_string(),
    };
    let svg = HtmlPathElement {
        handle: 1,
        name: QualName::new("http://www.w3.org/2000/svg", "use"),
        attrs: vec![href],
    };
    sink.append_element(&[], &svg);
    assert_eq!(text_of(sink.reset()), "<use xlink:href=\"#a\"></use>");
}

#[test]
fn element_outside_html_called_like_a_void_element_is_closed() {
    let mut sink = serialiser();
    let br = HtmlPathElement { handle: 1, name: QualName::new("urn:other", "br"), attrs: vec![] };
    sink.append_element(&[], &br);
    assert_eq!(text_of(sink.reset()), "<br></br>");
}

#[test]
fn serializer_default_options() {
    let opts = SerializeOpts::default();
    assert!(opts.scripting_enabled);
    assert!(!opts.create_missing_parent);
    assert!(matches!(opts.traversal_scope, TraversalScope::ChildrenOnly(None)));
}

#[test]
fn reset_twice_hands_back_the_output_once() {
    let mut sink = serialiser();
    let p = el(1, "p");
    sink.append_element(&[], &p);
    sink.append_text(&[p.clone()], "a");
    assert_eq!(text_of(sink.reset()), "<p>a</p>");
    assert_eq!(sink.reset(), Vec::<u8>::new());
    sink.append_element(&[], &el(2, "b"));
    assert_eq!(text_of(sink.reset()), "<b></b>");
}

#[test]
fn reset_twice_on_every_stage() {
    let p = el(1, "p");
    let mut remover = ElementRemover::wrap(serialiser(), NameSelector::new("b"));
    remover.append_element(&[], &p);
    assert_eq!(text_of(remover.reset()), "<p></p>");
    assert_eq!(remover.reset(), Vec::<u8>::new());
    let mut skipper = ElementSkipper::wrap(serialiser(), NameSelector::new("b"));
    skipper.append_element(&[], &p);
    assert_eq!(text_of(skipper.reset()), "<p></p>");
    assert_eq!(skipper.reset(), Vec::<u8>::new());
    let mut filter = RootFilter::wrap(serialiser(), NameSelector::new("p"));
    filter.append_element(&[], &p);
    assert_eq!(filter.reset(), vec![b"<p></p>".to_vec()]);
    assert_eq!(filter.reset(), Vec::<Vec<u8>>::new());
    let mut pair = (serialiser(), serialiser());
    pair.append_element(&[], &p);
    assert_eq!(pair.reset(), (b"<p></p>".to_vec(), b"<p></p>".to_vec()));
    assert_eq!(pair.reset(), (vec![], vec![]));
}

#[test]
fn remover_skips_the_subtree_and_ends_lazily() {
    let mut sink = ElementRemover::wrap(serialiser(), ClassSelector::new("hello"));
    let body = el(1, "body");
    let gone = el_with(2, "p", vec![attr("class", "big hello")]);
    let b = el(3, "b");
    let kept = el(4, "p");
    sink.append_doctype_to_document("html", "", "");
    sink.append_element(&[], &body);
    sink.append_element(&[body.clone()], &gone);
    sink.append_comment(&[body.clone(), gone.clone()], " c ");
    sink.append_element(&[body.clone(), gone.clone()], &b);
    sink.append_text(&[body.clone(), gone.clone(), b.clone()], "hello");
    sink.append_element(&[body.clone()], &kept);
    sink.append_text(&[body.clone(), kept.clone()], "world!");
    assert_eq!(text_of(sink.reset()), "<!DOCTYPE html><body><p>world!</p></body>");
}

#[test]
fn remover_passes_a_doctype_during_a_removal() {
    let mut sink = ElementRemover::wrap(serialiser(), NameSelector::new("p"));
    let p = el(1, "p");
    sink.append_element(&[], &p);
    sink.append_doctype_to_document("html", "", "");
    sink.append_text(&[p.clone()], "gone");
    sink.append_text(&[], "kept");
    assert_eq!(text_of(sink.reset()), "<!DOCTYPE html>kept");
}

#[test]
fn remover_starts_a_new_removal_right_after_one_ends() {
    let mut sink = ElementRemover::wrap(serialiser(), NameSelector::new("p"));
    let first = el(1, "p");
    let second = el(2, "p");
    sink.append_element(&[], &first);
    sink.append_text(&[first.clone()], "a");
    sink.append_element(&[], &second);
    sink.append_text(&[second.clone()], "b");
    sink.append_text(&[], "c");
    assert_eq!(text_of(sink.reset()), "c");
}

#[test]
fn remover_reset_clears_the_removal() {
    let mut sink = ElementRemover::wrap(serialiser(), NameSelector::new("p"));
    let p = el(1, "p");
    sink.append_element(&[], &p);
    assert_eq!(text_of(sink.reset()), "");
    sink.append_text(&[], "after");
    assert_eq!(text_of(sink.reset()), "after");
}

#[test]
fn skipper_drops_matching_elements_and_keeps_their_children() {
    let mut sink = ElementSkipper::wrap(serialiser(), NameSelector::new("div"));
    let outer = el(1, "div");
    let p = el(2, "p");
    let inner = el(3, "div");
    let b = el(4, "b");
    sink.append_doctype_to_document("html", "", "");
    sink.append_element(&[], &outer);
    sink.append_element(&[outer.clone()], &p);
    sink.append_element(&[outer.clone(), p.clone()], &inner);
    sink.append_element(&[outer.clone(), p.clone(), inner.clone()], &b);
    sink.append_text(&[outer.clone(), p.clone(), inner.clone(), b.clone()], "x");
    sink.append_comment(&[outer.clone()], "c");
    assert_eq!(text_of(sink.reset()), "<p><b>x</b></p><!--c-->");
}

#[test]
fn root_filter_extracts_adjacent_subtrees() {
    let mut sink = RootFilter::wrap(serialiser(), NameSelector::new("p"));
    let body = el(1, "body");
    let first = el(2, "p");
    let b = el(3, "b");
    let second = el(4, "p");
    sink.append_doctype_to_document("html", "", "");
    sink.append_element(&[], &body);
    sink.append_text(&[body.clone()], "outside");
    sink.append_element(&[body.clone()], &first);
    sink.append_element(&[body.clone(), first.clone()], &b);
    sink.append_text(&[body.clone(), first.clone(), b.clone()], "hello");
    sink.append_element(&[body.clone()], &second);
    sink.append_text(&[body.clone(), second.clone()], "world!");
    sink.append_comment(&[body.clone()], "outside too");
    sink.append_text(&[body.clone()], "and this");
    assert_eq!(
        sink.finish(),
        vec![b"<p><b>hello</b></p>".to_vec(), b"<p>world!</p>".to_vec()]
    );
}

#[test]
fn root_filter_does_not_start_a_selection_inside_one() {
    let mut sink = RootFilter::wrap(serialiser(), NameSelector::new("p"));
    let outer = el(1, "p");
    let inner = el(2, "p");
    sink.append_element(&[], &outer);
    sink.append_element(&[outer.clone()], &inner);
    sink.append_text(&[outer.clone(), inner.clone()], "x");
    assert_eq!(sink.reset(), vec![b"<p><p>x</p></p>".to_vec()]);
}

#[test]
fn root_filter_reset_closes_the_selection_under_way() {
    let mut sink = RootFilter::wrap(serialiser(), NameSelector::new("p"));
    let p = el(1, "p");
    sink.append_element(&[], &p);
    sink.append_text(&[p.clone()], "a");
    assert_eq!(sink.reset(), vec![b"<p>a</p>".to_vec()]);
    sink.append_text(&[], "dropped");
    sink.append_element(&[], &el(2, "p"));
    assert_eq!(sink.reset(), vec![b"<p></p>".to_vec()]);
}

#[test]
fn fan_out_feeds_both_sinks() {
    let mut pair = (
        ElementRemover::wrap(serialiser(), NameSelector::new("b")),
        ElementSkipper::wrap(serialiser(), NameSelector::new("b")),
    );
    let p = el(1, "p");
    let b = el(2, "b");
    pair.append_doctype_to_document("html", "", "");
    pair.append_element(&[], &p);
    pair.append_element(&[p.clone()], &b);
    pair.append_text(&[p.clone(), b.clone()], "x");
    pair.append_comment(&[p.clone()], "c");
    let (removed, skipped) = pair.finish();
    assert_eq!(text_of(removed), "<!DOCTYPE html><p><!--c--></p>");
    assert_eq!(text_of(skipped), "<p>x<!--c--></p>");
}

#[test]
fn traverser_gives_out_rising_handles() {
    let mut document = ParseTraverser::new_document(serialiser());
    assert_eq!(document.handle(), 0);
    assert_eq!(document.get_document(), 0);
    assert_eq!(document.create_element(QualName::new(HTML, "p"), vec![]), 1);
    assert_eq!(document.create_comment("c".to_string()), 2);
    assert_eq!(document.create_element(QualName::new(HTML, "b"), vec![]), 3);
    assert_eq!(document.handle(), 3);
    let mut fragment = ParseTraverser::new_fragment(serialiser());
    assert_eq!(fragment.handle(), 1);
    assert_eq!(fragment.create_element(QualName::new(HTML, "p"), vec![]), 2);
    assert!(document.same_node(2, 2));
    assert!(!document.same_node(2, 3));
}

#[test]
fn traverser_reports_appends_with_their_context() {
    let mut traverser = ParseTraverser::new_document(serialiser());
    let html = traverser.create_element(QualName::new(HTML, "html"), vec![]);
    let body = traverser.create_element(QualName::new(HTML, "body"), vec![]);
    let p = traverser.create_element(QualName::new(HTML, "p"), vec![attr("id", "a")]);
    let comment = traverser.create_comment(" c ".to_string());
    let second = traverser.create_element(QualName::new(HTML, "p"), vec![]);
    traverser.append_doctype_to_document("html", "", "");
    assert_eq!(traverser.append(0, NodeOrText::AppendNode(html)), Ok(()));
    assert_eq!(traverser.append(html, NodeOrText::AppendNode(body)), Ok(()));
    assert_eq!(traverser.append(body, NodeOrText::AppendNode(p)), Ok(()));
    assert_eq!(traverser.append(p, NodeOrText::AppendText("hello".to_string())), Ok(()));
    assert_eq!(traverser.append(p, NodeOrText::AppendNode(comment)), Ok(()));
    assert_eq!(traverser.append(body, NodeOrText::AppendNode(second)), Ok(()));
    assert_eq!(traverser.append(html, NodeOrText::AppendText("end".to_string())), Ok(()));
    assert_eq!(
        text_of(traverser.finish().unwrap()),
        "<!DOCTYPE html><html><body><p id=\"a\">hello<!-- c --></p><p></p></body>end</html>"
    );
}

#[test]
fn traverser_refuses_unknown_parents_and_nodes() {
    let mut traverser = ParseTraverser::new_document(serialiser());
    let p = traverser.create_element(QualName::new(HTML, "p"), vec![]);
    let b = traverser.create_element(QualName::new(HTML, "b"), vec![]);
    let comment = traverser.create_comment("c".to_string());
    assert_eq!(
        traverser.append(p, NodeOrText::AppendText("x".to_string())),
        Err(AppendError::UnknownParent)
    );
    assert_eq!(traverser.append(9, NodeOrText::AppendNode(b)), Err(AppendError::UnknownParent));
    assert_eq!(traverser.append(0, NodeOrText::AppendNode(9)), Err(AppendError::UnknownNode));
    assert_eq!(traverser.append(0, NodeOrText::AppendNode(p)), Ok(()));
    assert_eq!(traverser.append(0, NodeOrText::AppendNode(p)), Err(AppendError::UnknownNode));
    assert_eq!(traverser.append(0, NodeOrText::AppendNode(comment)), Ok(()));
    assert_eq!(
        traverser.append(comment, NodeOrText::AppendText("x".to_string())),
        Err(AppendError::UnknownParent)
    );
    assert_eq!(
        traverser.append(p, NodeOrText::AppendText("x".to_string())),
        Err(AppendError::UnknownParent)
    );
    assert_eq!(traverser.append(0, NodeOrText::AppendNode(b)), Ok(()));
    assert_eq!(text_of(traverser.finish().unwrap()), "<p></p><!--c--><b></b>");
}

#[test]
fn traverser_resolves_handles_on_the_path_and_waiting() {
    let mut traverser = ParseTraverser::new_document(serialiser());
    let p = traverser.create_element(QualName::new(HTML, "p"), vec![attr("id", "a")]);
    let b = traverser.create_element(QualName::new(HTML, "b"), vec![]);
    let comment = traverser.create_comment("c".to_string());
    assert_eq!(traverser.append(0, NodeOrText::AppendNode(p)), Ok(()));
    let on_path = traverser.element(p).unwrap();
    assert_eq!(on_path.handle, p);
    assert_eq!(on_path.name.local, "p");
    assert_eq!(on_path.attrs[0].value, "a");
    assert_eq!(on_path.as_html_path_element().handle, p);
    let waiting = traverser.element(b).unwrap();
    assert_eq!(waiting.handle, b);
    assert_eq!(waiting.name.local, "b");
    assert!(traverser.element(comment).is_none());
    assert!(traverser.element(0).is_none());
    assert!(traverser.element(77).is_none());
    assert_eq!(traverser.append(0, NodeOrText::AppendNode(b)), Ok(()));
    assert!(traverser.element(p).is_none());
}

#[test]
fn traverser_latches_the_first_parse_error() {
    let mut traverser = ParseTraverser::new_document(serialiser());
    let p = traverser.create_element(QualName::new(HTML, "p"), vec![]);
    let b = traverser.create_element(QualName::new(HTML, "b"), vec![]);
    assert_eq!(traverser.append(0, NodeOrText::AppendNode(p)), Ok(()));
    traverser.parse_error("first".to_string());
    traverser.parse_error("second".to_string());
    assert_eq!(traverser.append(p, NodeOrText::AppendNode(b)), Ok(()));
    assert_eq!(traverser.append(b, NodeOrText::AppendText("x".to_string())), Ok(()));
    assert_eq!(traverser.append(0, NodeOrText::AppendNode(404)), Ok(()));
    assert!(traverser.element(b).is_some());
    assert!(traverser.element(p).is_none());
    assert_eq!(traverser.finish(), Err("first".to_string()));
}

#[test]
fn traverser_reports_nothing_after_a_parse_error() {
    let mut traverser = ParseTraverser::new_document(RootFilter::wrap(
        serialiser(),
        NameSelector::new("p"),
    ));
    let p = traverser.create_element(QualName::new(HTML, "p"), vec![]);
    traverser.parse_error("broken".to_string());
    assert_eq!(traverser.append(0, NodeOrText::AppendNode(p)), Ok(()));
    assert_eq!(traverser.finish(), Err("broken".to_string()));
}

#[test]
fn attr_finds_the_first_attribute_of_that_name() {
    let element = el_with(1, "p", vec![attr("id", "a"), attr("class", "x"), attr("id", "b")]);
    assert_eq!(element.attr(QualName::new("", "id")), Some(&"a".to_string()));
    assert_eq!(element.attr(QualName::new("", "class")), Some(&"x".to_string()));
    assert_eq!(element.attr(QualName::new("", "title")), None);
    assert_eq!(element.attr(QualName::new(HTML, "id")), None);
    let prefixed = QualName { prefix: Some("x".to_string()), ns: String::new(), local: "id".to_string() };
    assert_eq!(element.attr(prefixed), None);
}

#[test]
fn same_as_compares_prefix_namespace_and_local_name() {
    let name = QualName::new(HTML, "p");
    assert!(name.same_as(&QualName::new(HTML, "p")));
    assert!(!name.same_as(&QualName::new(HTML, "b")));
    assert!(!name.same_as(&QualName::new("", "p")));
    let prefixed = QualName { prefix: Some("h".to_string()), ns: HTML.to_string(), local: "p".to_string() };
    assert!(!name.same_as(&prefixed));
    assert!(prefixed.same_as(&prefixed.clone()));
}

#[test]
fn classes_are_the_words_of_the_class_attribute() {
    let element = el_with(1, "p", vec![attr("id", "a"), attr("class", "  big\thello \n x ")]);
    assert_eq!(element.classes(), vec!["big".to_string(), "hello".to_string(), "x".to_string()]);
    assert_eq!(el(2, "p").classes(), Vec::<String>::new());
    assert_eq!(el_with(3, "p", vec![attr("class", "")]).classes(), Vec::<String>::new());
}

#[test]
fn position_of_handle_finds_the_place() {
    let path = [el(4, "a"), el(2, "b"), el(9, "i")];
    assert_eq!(position_of_handle(&path, 4), Some(0));
    assert_eq!(position_of_handle(&path, 9), Some(2));
    assert_eq!(position_of_handle(&path, 3), None);
    assert_eq!(position_of_handle(&[], 3), None);
}

#[test]
fn selectors_match_by_name_and_by_class() {
    let p = el_with(1, "p", vec![attr("class", "a hello")]);
    let by_name = NameSelector::new("p");
    assert!(by_name.is_match(&p));
    assert!(by_name.context_match(&[el(7, "div")], &p));
    assert!(!by_name.is_match(&el(2, "b")));
    let by_class = ClassSelector::new("hello");
    assert!(by_class.is_match(&p));
    assert!(by_class.context_match(&[], &p));
    assert!(!by_class.is_match(&el_with(3, "p", vec![attr("class", "helloo")])));
    assert!(!ClassSelector::new("hell").is_match(&p));
    assert!(!by_class.is_match(&el(4, "p")));
}

#[test]
fn clone_keeps_the_element() {
    let element = el_with(5, "p", vec![attr("id", "a"), attr("class", "x")]);
    let copy = element.clone();
    assert_eq!(copy.handle, 5);
    assert_eq!(copy.name.local, "p");
    assert_eq!(copy.name.ns, HTML);
    assert_eq!(copy.attrs.len(), 2);
    assert_eq!(copy.attrs[1].name.local, "class");
    assert_eq!(copy.attrs[1].value, "x");
}

#[test]
fn describe_shows_handle_name_and_attributes() {
    let element = el_with(42, "p", vec![attr("id", "a"), attr("class", "x y")]);
    assert_eq!(element.describe(), "#42 <p id=\"a\" class=\"x y\">");
    assert_eq!(el(0, "br").describe(), "#0 <br>");
    assert_eq!(el(4294967295, "b").describe(), "#4294967295 <b>");
}

#[test]
fn describe_of_an_element_of_the_adapter() {
    let mut traverser = ParseTraverser::new_document(serialiser());
    let p = traverser.create_element(QualName::new(HTML, "p"), vec![attr("id", "a\"b")]);
    assert_eq!(traverser.element(p).unwrap().describe(), "#1: <p id=\"a\"b\">");
}

#[test]
fn serializer_accepts_contexts_that_it_holds_open() {
    let mut sink = serialiser();
    let a = el(1, "a");
    let b = el(2, "b");
    assert!(sink.accepts(&[]));
    assert!(!sink.accepts(&[a.clone()]));
    sink.append_element(&[], &a);
    sink.append_element(&[a.clone()], &b);
    assert!(sink.accepts(&[]));
    assert!(sink.accepts(&[a.clone()]));
    assert!(sink.accepts(&[a.clone(), b.clone()]));
    assert!(sink.accepts(&[el(1, "other")]));
    assert!(!sink.accepts(&[b.clone()]));
    assert!(!sink.accepts(&[a.clone(), el(3, "b")]));
    assert!(!sink.accepts(&[a.clone(), b.clone(), el(3, "i")]));
    sink.append_text(&[a.clone()], "x");
    assert!(!sink.accepts(&[a.clone(), b.clone()]));
    assert!(sink.accepts(&[a.clone()]));
}

fn shape(events: &[Event]) -> Vec<String> {
    let path = |context: &Vec<HtmlPathElement>| {
        context.iter().map(|e| e.handle.to_string()).collect::<Vec<_>>().join("/")
    };
    events
        .iter()
        .map(|event| match event {
            Event::Doctype { name, public_id, system_id } => {
                format!("doctype {} {} {}", name, public_id, system_id)
            }
            Event::Element { context, element } => {
                format!("[{}] {}", path(context), element.describe())
            }
            Event::Text { context, text } => format!("[{}] text {}", path(context), text),
            Event::Comment { context, text } => format!("[{}] comment {}", path(context), text),
        })
        .collect()
}

#[test]
fn collector_keeps_the_events_in_order() {
    let mut sink = EventCollector::new();
    let p = el_with(1, "p", vec![attr("id", "a")]);
    sink.append_doctype_to_document("html", "pub", "sys");
    sink.append_element(&[], &p);
    sink.append_text(&[p.clone()], "x");
    sink.append_comment(&[], "c");
    assert_eq!(
        shape(&sink.reset()),
        vec!["doctype html pub sys", "[] #1 <p id=\"a\">", "[1] text x", "[] comment c"]
    );
    assert!(sink.reset().is_empty());
}

#[test]
fn skipper_hands_on_contexts_without_the_skipped_ancestors() {
    let mut sink = ElementSkipper::wrap(EventCollector::new(), NameSelector::new("div"));
    let outer = el(1, "div");
    let p = el(2, "p");
    let inner = el(3, "div");
    let b = el(4, "b");
    sink.append_doctype_to_document("html", "", "");
    sink.append_element(&[], &outer);
    sink.append_element(&[outer.clone()], &p);
    sink.append_element(&[outer.clone(), p.clone()], &inner);
    sink.append_element(&[outer.clone(), p.clone(), inner.clone()], &b);
    sink.append_text(&[outer.clone(), p.clone(), inner.clone(), b.clone()], "x");
    sink.append_comment(&[outer.clone()], "c");
    assert_eq!(
        shape(&sink.finish()),
        vec!["[] #2 <p>", "[2] #4 <b>", "[2/4] text x", "[] comment c"]
    );
}

#[test]
fn root_filter_rebases_contexts_to_the_root() {
    let mut sink = RootFilter::wrap(EventCollector::new(), NameSelector::new("p"));
    let body = el(1, "body");
    let p = el(2, "p");
    let b = el(3, "b");
    sink.append_element(&[], &body);
    sink.append_element(&[body.clone()], &p);
    sink.append_element(&[body.clone(), p.clone()], &b);
    sink.append_text(&[body.clone(), p.clone(), b.clone()], "x");
    sink.append_comment(&[body.clone(), p.clone()], "c");
    sink.append_text(&[body.clone()], "outside");
    let outputs = sink.finish();
    assert_eq!(outputs.len(), 1);
    assert_eq!(
        shape(&outputs[0]),
        vec!["[] #2 <p>", "[2] #3 <b>", "[2/3] text x", "[2] comment c"]
    );
}

#[test]
fn remover_hands_on_what_is_kept_unchanged() {
    let mut sink = ElementRemover::wrap(EventCollector::new(), NameSelector::new("b"));
    let p = el(1, "p");
    let b = el(2, "b");
    sink.append_element(&[], &p);
    sink.append_element(&[p.clone()], &b);
    sink.append_text(&[p.clone(), b.clone()], "gone");
    sink.append_text(&[p.clone()], "kept");
    assert_eq!(shape(&sink.finish()), vec!["[] #1 <p>", "[1] text kept"]);
}

#[test]
fn traverser_contexts_follow_the_unwinding() {
    let mut traverser = ParseTraverser::new_document(EventCollector::new());
    let a = traverser.create_element(QualName::new(HTML, "a"), vec![]);
    let b = traverser.create_element(QualName::new(HTML, "b"), vec![]);
    let c = traverser.create_element(QualName::new(HTML, "i"), vec![]);
    let comment = traverser.create_comment("c".to_string());
    assert_eq!(traverser.append(0, NodeOrText::AppendNode(a)), Ok(()));
    assert_eq!(traverser.append(a, NodeOrText::AppendNode(b)), Ok(()));
    assert_eq!(traverser.append(b, NodeOrText::AppendNode(c)), Ok(()));
    assert_eq!(traverser.append(a, NodeOrText::AppendNode(comment)), Ok(()));
    assert_eq!(traverser.append(a, NodeOrText::AppendText("t".to_string())), Ok(()));
    assert_eq!(traverser.append(0, NodeOrText::AppendText("u".to_string())), Ok(()));
    assert_eq!(
        shape(&traverser.finish().unwrap()),
        vec![
            "[] #1 <a>",
            "[1] #2 <b>",
            "[1/2] #3 <i>",
            "[1] comment c",
            "[1] text t",
            "[] text u"
        ]
    );
}
