//! The terminal sink that writes the stream out as markup.
//!
//! The serializer keeps the path of the elements it has opened. Before each
//! event it closes what the event's context no longer holds, innermost first,
//! and then writes the event itself.

use vstd::prelude::*;
use crate::element::{
    ElementView, HtmlContext, HtmlPathElement, QualName, QualNameView, handles, path_view,
};
use crate::event::{SinkEvent, open_path, well_formed};
use crate::markup::{
    MarkupWriter, comment_markup, doctype_markup, end_elem, end_tag, html_name, is_void,
    new_serializer, open_tags, scripting, start_elem, start_tag, take_written, text_markup,
    write_comment, write_doctype, write_text, written,
};
use crate::options::{SerializeOpts, root_name};
use crate::sink::HtmlSink;

verus! {

/// The names of the elements of a path.
pub open spec fn names(path: Seq<ElementView>) -> Seq<QualNameView> {
    path.map_values(|e: ElementView| e.name)
}

/// Whether the tags of elements below `path` are left out: some element of
/// the path is void.
pub open spec fn muted(path: Seq<QualNameView>) -> bool {
    exists|i: int| 0 <= i < path.len() && is_void(#[trigger] path[i])
}

/// The stack that the writer holds while the elements of `path` are open
/// below a root called `root`.
pub open spec fn tags(root: Option<Seq<char>>, path: Seq<QualNameView>) -> Seq<
    (Option<Seq<char>>, bool),
>
    decreases path.len(),
{
    if path.len() == 0 {
        seq![(root, false)]
    } else {
        tags(root, path.drop_last()).push((html_name(path.last()), muted(path)))
    }
}

/// The HTML name of the innermost element of `path`, or of the root where the
/// path is empty.
pub open spec fn parent_name(root: Option<Seq<char>>, path: Seq<QualNameView>) -> Option<
    Seq<char>,
> {
    if path.len() == 0 {
        root
    } else {
        html_name(path.last())
    }
}

/// The end tags that close `path` down to its first `keep` elements,
/// innermost first.
pub open spec fn closing(path: Seq<QualNameView>, keep: int) -> Seq<u8>
    decreases path.len(),
{
    if path.len() == 0 || path.len() <= keep {
        Seq::empty()
    } else {
        (if muted(path) {
            Seq::empty()
        } else {
            end_tag(path.last())
        }) + closing(path.drop_last(), keep)
    }
}

/// The bytes written for one event that arrives while `open` is open: the end
/// tags of what its context no longer holds, then the event itself.
pub open spec fn event_markup(
    root: Option<Seq<char>>,
    scripting: bool,
    open: Seq<QualNameView>,
    event: SinkEvent,
) -> Seq<u8> {
    match event {
        SinkEvent::Doctype { name, .. } => doctype_markup(name),
        SinkEvent::Element { context, element } => closing(open, context.len() as int) + (if muted(
            names(context),
        ) {
            Seq::empty()
        } else {
            start_tag(element.name, element.attrs)
        }),
        SinkEvent::Text { context, text } => closing(open, context.len() as int) + text_markup(
            parent_name(root, names(context)),
            scripting,
            text,
        ),
        SinkEvent::Comment { context, text } => closing(open, context.len() as int)
            + comment_markup(text),
    }
}

/// The bytes written for the events of `log`, one after the other.
pub open spec fn rendered(root: Option<Seq<char>>, scripting: bool, log: Seq<SinkEvent>) -> Seq<u8>
    decreases log.len(),
{
    if log.len() == 0 {
        Seq::empty()
    } else {
        rendered(root, scripting, log.drop_last()) + event_markup(
            root,
            scripting,
            names(open_path(log.drop_last())),
            log.last(),
        )
    }
}

/// The markup of a whole stream: what is written for its events, and the end
/// tags of all that they leave open.
pub open spec fn markup_of(root: Option<Seq<char>>, scripting: bool, log: Seq<SinkEvent>) -> Seq<
    u8,
> {
    rendered(root, scripting, log) + closing(names(open_path(log)), 0)
}

/// The stack of a path has one entry more than the path, the root's first.
pub proof fn lemma_tags_shape(root: Option<Seq<char>>, path: Seq<QualNameView>)
    ensures
        tags(root, path).len() == path.len() + 1,
        tags(root, path)[0] == (root, false),
        tags(root, path).last().1 == muted(path),
        tags(root, path).last().0 == parent_name(root, path),
    decreases path.len(),
{
    if path.len() > 0 {
        lemma_tags_shape(root, path.drop_last());
    }
}

/// Below one more element the tags are left out if they were before, or if
/// the element is void.
pub proof fn lemma_muted_push(path: Seq<QualNameView>, name: QualNameView)
    ensures
        muted(path.push(name)) == (muted(path) || is_void(name)),
{
    let longer = path.push(name);
    if muted(path) {
        let i = choose|i: int| 0 <= i < path.len() && is_void(#[trigger] path[i]);
        assert(is_void(longer[i]));
    }
    if is_void(name) {
        assert(is_void(longer[path.len() as int]));
    }
    if muted(longer) {
        let i = choose|i: int| 0 <= i < longer.len() && is_void(#[trigger] longer[i]);
        if i < path.len() {
            assert(is_void(path[i]));
        }
    }
}

/// An element that was opened, by handle and name.
struct OpenElement {
    handle: u32,
    name: QualName,
}

/// A sink that writes markup.
pub struct HtmlSerializer {
    inner: MarkupWriter,
    open_element_path: Vec<OpenElement>,
    log: Ghost<Seq<SinkEvent>>,
}

impl HtmlSerializer {
    /// The name that the serializer takes for the parent of the outermost
    /// nodes.
    pub closed spec fn root_name(&self) -> Option<Seq<char>> {
        open_tags(self.inner)[0].0
    }

    /// Whether the serializer was made with scripting enabled.
    pub closed spec fn scripting_enabled(&self) -> bool {
        scripting(self.inner)
    }

    /// Whether `open` holds the handles and names of `path`.
    spec fn mirrors(open: Seq<OpenElement>, path: Seq<ElementView>) -> bool {
        &&& open.len() == path.len()
        &&& forall|i: int|
            0 <= i < open.len() ==> (#[trigger] open[i]).handle == path[i].handle && open[i].name@
                == path[i].name
    }

    /// A serializer that has written nothing.
    pub fn new(opts: SerializeOpts) -> (serializer: Self)
        ensures
            serializer.inv(),
            serializer.received() == Seq::<SinkEvent>::empty(),
            serializer.root_name() == root_name(opts),
            serializer.scripting_enabled() == opts.scripting_enabled,
    {
        let inner = new_serializer(&opts);
        HtmlSerializer { inner, open_element_path: Vec::new(), log: Ghost(Seq::empty()) }
    }

    /// Whether `context` names, handle by handle, the outermost of the
    /// elements that the serializer holds open, as the context of every event
    /// must.
    pub fn accepts(&self, context: HtmlContext<'_>) -> (fitting: bool)
        requires
            self.inv(),
        ensures
            fitting == handles(path_view(context@)).is_prefix_of(
                handles(open_path(self.received())),
            ),
    {
        let ghost given = handles(path_view(context@));
        let ghost open = handles(open_path(self.log@));
        if context.len() > self.open_element_path.len() {
            return false;
        }
        let mut i: usize = 0;
        while i < context.len()
            invariant
                i <= context@.len() <= self.open_element_path@.len(),
                given == handles(path_view(context@)),
                open == handles(open_path(self.log@)),
                Self::mirrors(self.open_element_path@, open_path(self.log@)),
                forall|k: int| 0 <= k < i ==> given[k] == open[k],
            decreases context@.len() - i,
        {
            if context[i].handle != self.open_element_path[i].handle {
                proof {
                    assert(given[i as int] == context@[i as int].handle);
                    assert(open[i as int] == self.open_element_path@[i as int].handle);
                    assert(open.subrange(0, given.len() as int)[i as int] == open[i as int]);
                }
                return false;
            }
            proof {
                assert(given[i as int] == context@[i as int].handle);
                assert(open[i as int] == self.open_element_path@[i as int].handle);
            }
            i += 1;
        }
        proof {
            assert(given =~= open.subrange(0, given.len() as int));
        }
        true
    }

    /// Closes the open elements that `context` does not hold, innermost first.
    fn pop_to_path(&mut self, context: HtmlContext<'_>)
        requires
            old(self).inv(),
            path_view(context@).is_prefix_of(open_path(old(self).log@)),
        ensures
            final(self).log@ == old(self).log@,
            Self::mirrors(final(self).open_element_path@, path_view(context@)),
            open_tags(final(self).inner) == tags(old(self).root_name(), names(path_view(context@))),
            scripting(final(self).inner) == scripting(old(self).inner),
            written(final(self).inner) == written(old(self).inner) + closing(
                names(open_path(old(self).log@)),
                context@.len() as int,
            ),
    {
        let depth = context.len();
        let ghost open = open_path(self.log@);
        let ghost path = names(open);
        let ghost root = self.root_name();
        let ghost before = written(self.inner);
        proof {
            assert(path.take(path.len() as int) =~= path);
            assert(open.take(open.len() as int) =~= open);
        }
        while depth < self.open_element_path.len()
            invariant
                depth <= self.open_element_path.len() <= open.len(),
                path == names(open),
                self.log@ == old(self).log@,
                Self::mirrors(
                    self.open_element_path@,
                    open.take(self.open_element_path.len() as int),
                ),
                open_tags(self.inner) == tags(root, path.take(self.open_element_path.len() as int)),
                scripting(self.inner) == scripting(old(self).inner),
                before + closing(path, depth as int) == written(self.inner) + closing(
                    path.take(self.open_element_path.len() as int),
                    depth as int,
                ),
            decreases self.open_element_path.len(),
        {
            let ghost len = self.open_element_path.len() as int;
            let ghost written_before = written(self.inner);
            let closed = self.open_element_path.pop().unwrap();
            proof {
                lemma_tags_shape(root, path.take(len));
                assert(path.take(len).drop_last() =~= path.take(len - 1));
                assert(tags(root, path.take(len)).drop_last() =~= tags(root, path.take(len - 1)));
                assert(closed.name@ == open.take(len)[len - 1].name);
                assert(path.take(len).last() == closed.name@);
            }
            end_elem(&mut self.inner, &closed.name);
            proof {
                let tail = closing(path.take(len - 1), depth as int);
                let tag = if muted(path.take(len)) {
                    Seq::<u8>::empty()
                } else {
                    end_tag(closed.name@)
                };
                assert(closing(path.take(len), depth as int) == tag + tail);
                assert(written_before + (tag + tail) =~= (written_before + tag) + tail);
                assert forall|i: int| 0 <= i < self.open_element_path.len() implies (
                #[trigger] self.open_element_path[i]).handle == open.take(len - 1)[i].handle
                    && self.open_element_path[i].name@ == open.take(len - 1)[i].name by {
                    assert(open.take(len)[i] == open.take(len - 1)[i]);
                }
            }
        }
        proof {
            assert(open.take(depth as int) =~= path_view(context@));
            assert(path.take(depth as int) =~= names(path_view(context@)));
            assert(written(self.inner) + Seq::<u8>::empty() =~= written(self.inner));
        }
    }
}

impl HtmlSink for HtmlSerializer {
    type Output = Vec<u8>;

    closed spec fn inv(&self) -> bool {
        &&& well_formed(self.log@)
        &&& Self::mirrors(self.open_element_path@, open_path(self.log@))
        &&& open_tags(self.inner) == tags(self.root_name(), names(open_path(self.log@)))
        &&& written(self.inner) == rendered(self.root_name(), self.scripting_enabled(), self.log@)
    }

    closed spec fn received(&self) -> Seq<SinkEvent> {
        self.log@
    }

    open spec fn pending(&self) -> Seq<u8> {
        markup_of(self.root_name(), self.scripting_enabled(), self.received())
    }

    open spec fn nothing() -> Seq<u8> {
        Seq::empty()
    }

    proof fn lemma_received_well_formed(&self) {
    }

    fn append_doctype_to_document(&mut self, name: &str, public_id: &str, system_id: &str)
        ensures
            final(self).root_name() == old(self).root_name(),
            final(self).scripting_enabled() == old(self).scripting_enabled(),
    {
        let ghost event = SinkEvent::Doctype {
            name: name@,
            public_id: public_id@,
            system_id: system_id@,
        };
        write_doctype(&mut self.inner, name);
        proof {
            assert(self.log@.push(event).drop_last() =~= self.log@);
        }
        self.log = Ghost(self.log@.push(event));
    }

    fn append_element(&mut self, context: HtmlContext<'_>, element: &HtmlPathElement)
        ensures
            final(self).root_name() == old(self).root_name(),
            final(self).scripting_enabled() == old(self).scripting_enabled(),
    {
        let ghost event = SinkEvent::Element { context: path_view(context@), element: element@ };
        let ghost root = self.root_name();
        self.pop_to_path(context);
        proof {
            lemma_tags_shape(root, names(path_view(context@)));
            lemma_muted_push(names(path_view(context@)), element@.name);
            assert(names(path_view(context@).push(element@)) =~= names(path_view(context@)).push(
                element@.name,
            ));
            assert(names(path_view(context@).push(element@)).drop_last() =~= names(
                path_view(context@),
            ));
        }
        start_elem(&mut self.inner, &element.name, &element.attrs);
        self.open_element_path.push(
            OpenElement { handle: element.handle, name: element.name.clone() },
        );
        proof {
            assert(self.log@.push(event).drop_last() =~= self.log@);
            let shown = rendered(root, scripting(self.inner), self.log@);
            let closed = closing(names(open_path(self.log@)), context@.len() as int);
            let tag = if muted(names(path_view(context@))) {
                Seq::<u8>::empty()
            } else {
                start_tag(element@.name, element@.attrs)
            };
            assert(shown + (closed + tag) =~= (shown + closed) + tag);
        }
        self.log = Ghost(self.log@.push(event));
    }

    fn append_text(&mut self, context: HtmlContext<'_>, text: &str)
        ensures
            final(self).root_name() == old(self).root_name(),
            final(self).scripting_enabled() == old(self).scripting_enabled(),
    {
        let ghost event = SinkEvent::Text { context: path_view(context@), text: text@ };
        let ghost root = self.root_name();
        self.pop_to_path(context);
        proof {
            lemma_tags_shape(root, names(path_view(context@)));
        }
        write_text(&mut self.inner, text);
        proof {
            assert(self.log@.push(event).drop_last() =~= self.log@);
            let shown = rendered(root, scripting(self.inner), self.log@);
            let closed = closing(names(open_path(self.log@)), context@.len() as int);
            let markup = text_markup(
                parent_name(root, names(path_view(context@))),
                scripting(self.inner),
                text@,
            );
            assert(shown + (closed + markup) =~= (shown + closed) + markup);
        }
        self.log = Ghost(self.log@.push(event));
    }

    fn append_comment(&mut self, context: HtmlContext<'_>, text: &str)
        ensures
            final(self).root_name() == old(self).root_name(),
            final(self).scripting_enabled() == old(self).scripting_enabled(),
    {
        let ghost event = SinkEvent::Comment { context: path_view(context@), text: text@ };
        let ghost root = self.root_name();
        self.pop_to_path(context);
        proof {
            lemma_tags_shape(root, names(path_view(context@)));
        }
        write_comment(&mut self.inner, text);
        proof {
            assert(self.log@.push(event).drop_last() =~= self.log@);
            let shown = rendered(root, scripting(self.inner), self.log@);
            let closed = closing(names(open_path(self.log@)), context@.len() as int);
            assert(shown + (closed + comment_markup(text@)) =~= (shown + closed) + comment_markup(
                text@,
            ));
        }
        self.log = Ghost(self.log@.push(event));
    }

    fn reset(&mut self) -> (out: Vec<u8>)
        ensures
            final(self).root_name() == old(self).root_name(),
            final(self).scripting_enabled() == old(self).scripting_enabled(),
    {
        let none: Vec<HtmlPathElement> = Vec::new();
        proof {
            assert(path_view(none@) =~= Seq::<ElementView>::empty());
        }
        self.pop_to_path(none.as_slice());
        let out = take_written(&mut self.inner);
        self.log = Ghost(Seq::empty());
        proof {
            assert(names(path_view(none@)) =~= Seq::<QualNameView>::empty());
            assert(out.deep_view() =~= out@);
            assert(closing(names(path_view(none@)), 0) =~= Seq::<u8>::empty());
            assert(open_path(self.log@) =~= Seq::<ElementView>::empty());
            assert(names(open_path(self.log@)) =~= Seq::<QualNameView>::empty());
            assert(self.pending() =~= Self::nothing());
            assert(out@ == old(self).pending());
        }
        out
    }
}

} // verus!
