//! Elements as the stream reports them: a handle, a qualified name and the
//! attributes in source order.

use vstd::prelude::*;
use vstd::string::StringExecFns;

verus! {

/// A qualified name: an optional prefix, a namespace URL and a local name.
#[derive(Debug)]
pub struct QualName {
    pub prefix: Option<String>,
    pub ns: String,
    pub local: String,
}

/// The mathematical value of a [`QualName`].
pub struct QualNameView {
    pub prefix: Option<Seq<char>>,
    pub ns: Seq<char>,
    pub local: Seq<char>,
}

impl View for QualName {
    type V = QualNameView;

    open spec fn view(&self) -> QualNameView {
        QualNameView {
            prefix: match self.prefix {
                Some(p) => Some(p@),
                None => None,
            },
            ns: self.ns@,
            local: self.local@,
        }
    }
}

impl Clone for QualName {
    fn clone(&self) -> (copy: Self)
        ensures
            copy@ == self@,
    {
        let prefix = match &self.prefix {
            Some(p) => Some(p.clone()),
            None => None,
        };
        QualName { prefix, ns: self.ns.clone(), local: self.local.clone() }
    }
}

impl QualName {
    /// A name without prefix.
    pub fn new(ns: &str, local: &str) -> (name: Self)
        ensures
            name@ == (QualNameView { prefix: None, ns: ns@, local: local@ }),
    {
        QualName { prefix: None, ns: ns.to_owned(), local: local.to_owned() }
    }

    /// Whether two names agree in prefix, namespace and local name.
    pub fn same_as(&self, other: &QualName) -> (same: bool)
        ensures
            same == (self@ == other@),
    {
        let same_prefix = match (&self.prefix, &other.prefix) {
            (Some(a), Some(b)) => *a == *b,
            (None, None) => true,
            _ => false,
        };
        same_prefix && self.ns == other.ns && self.local == other.local
    }
}

/// One attribute of an element.
#[derive(Debug)]
pub struct Attribute {
    pub name: QualName,
    pub value: String,
}

/// The mathematical value of an [`Attribute`].
pub struct AttributeView {
    pub name: QualNameView,
    pub value: Seq<char>,
}

impl View for Attribute {
    type V = AttributeView;

    open spec fn view(&self) -> AttributeView {
        AttributeView { name: self.name@, value: self.value@ }
    }
}

impl Clone for Attribute {
    fn clone(&self) -> (copy: Self)
        ensures
            copy@ == self@,
    {
        Attribute { name: self.name.clone(), value: self.value.clone() }
    }
}

/// The values of a list of attributes, in the same order.
pub open spec fn attrs_view(attrs: Seq<Attribute>) -> Seq<AttributeView> {
    attrs.map_values(|a: Attribute| a@)
}

/// An element together with the handle that identifies it in one parse.
#[derive(Debug)]
pub struct HtmlPathElement {
    pub handle: u32,
    pub name: QualName,
    pub attrs: Vec<Attribute>,
}

/// The mathematical value of an [`HtmlPathElement`].
pub struct ElementView {
    pub handle: u32,
    pub name: QualNameView,
    pub attrs: Seq<AttributeView>,
}

impl View for HtmlPathElement {
    type V = ElementView;

    open spec fn view(&self) -> ElementView {
        ElementView { handle: self.handle, name: self.name@, attrs: attrs_view(self.attrs@) }
    }
}

/// Viewing commutes with adding an attribute at the end.
pub proof fn lemma_attrs_view_push(attrs: Seq<Attribute>, attr: Attribute)
    ensures
        attrs_view(attrs.push(attr)) == attrs_view(attrs).push(attr@),
{
    assert(attrs_view(attrs.push(attr)) =~= attrs_view(attrs).push(attr@));
}

/// The values of a path of elements, outermost first.
pub open spec fn path_view(path: Seq<HtmlPathElement>) -> Seq<ElementView> {
    path.map_values(|e: HtmlPathElement| e@)
}

/// A copy of a list of attributes.
pub fn clone_attrs(attrs: &Vec<Attribute>) -> (copy: Vec<Attribute>)
    ensures
        attrs_view(copy@) == attrs_view(attrs@),
{
    let mut copy: Vec<Attribute> = Vec::new();
    let mut i: usize = 0;
    while i < attrs.len()
        invariant
            i <= attrs.len(),
            attrs_view(copy@) == attrs_view(attrs@).take(i as int),
        decreases attrs.len() - i,
    {
        let attr = attrs[i].clone();
        proof {
            lemma_attrs_view_push(copy@, attr);
            assert(attrs_view(attrs@).take(i + 1) =~= attrs_view(attrs@).take(i as int).push(
                attr@,
            ));
        }
        copy.push(attr);
        i += 1;
    }
    proof {
        assert(attrs_view(attrs@).take(i as int) =~= attrs_view(attrs@));
    }
    copy
}

impl Clone for HtmlPathElement {
    fn clone(&self) -> (copy: Self)
        ensures
            copy@ == self@,
    {
        HtmlPathElement {
            handle: self.handle,
            name: self.name.clone(),
            attrs: clone_attrs(&self.attrs),
        }
    }
}

/// A copy of a path of elements.
pub fn clone_path(path: &[HtmlPathElement]) -> (copy: Vec<HtmlPathElement>)
    ensures
        path_view(copy@) == path_view(path@),
{
    let mut copy: Vec<HtmlPathElement> = Vec::new();
    let mut i: usize = 0;
    proof {
        assert(path_view(copy@) =~= path_view(path@).take(0));
    }
    while i < path.len()
        invariant
            i <= path@.len(),
            path_view(copy@) == path_view(path@).take(i as int),
        decreases path@.len() - i,
    {
        let element = path[i].clone();
        proof {
            assert(path_view(copy@.push(element)) =~= path_view(copy@).push(element@));
            assert(path_view(path@).take(i + 1) =~= path_view(path@).take(i as int).push(
                path@[i as int]@,
            ));
        }
        copy.push(element);
        i += 1;
    }
    proof {
        assert(path_view(path@).take(i as int) =~= path_view(path@));
    }
    copy
}

/// A context: the path of the open ancestors of a node, outermost first.
pub type HtmlContext<'a> = &'a [HtmlPathElement];

/// The handles of the elements of a path, in order.
pub open spec fn handles(path: Seq<ElementView>) -> Seq<u32> {
    path.map_values(|e: ElementView| e.handle)
}

/// Whether some element of `path` has the handle `handle`.
pub open spec fn has_handle(path: Seq<ElementView>, handle: u32) -> bool {
    exists|i: int| 0 <= i < path.len() && (#[trigger] path[i]).handle == handle
}

/// Whether no two elements of `path` share a handle.
pub open spec fn distinct_handles(path: Seq<ElementView>) -> bool {
    forall|i: int, j: int|
        0 <= i < j < path.len() ==> (#[trigger] path[i]).handle != (#[trigger] path[j]).handle
}

/// The first place in `path` at which the handle `handle` stands.
pub open spec fn place_of(path: Seq<ElementView>, handle: u32) -> int {
    choose|i: int|
        0 <= i < path.len() && (#[trigger] path[i]).handle == handle && !has_handle(
            path.take(i),
            handle,
        )
}

/// The place at which a handle stands first is `place_of` it.
pub proof fn lemma_place_of(path: Seq<ElementView>, handle: u32, index: int)
    requires
        0 <= index < path.len(),
        path[index].handle == handle,
        !has_handle(path.take(index), handle),
    ensures
        place_of(path, handle) == index,
{
    let place = place_of(path, handle);
    if place < index {
        assert(path.take(index)[place].handle == handle);
    }
    if index < place {
        assert(path.take(place)[index].handle == handle);
    }
}

/// Where the element with the handle `handle` stands in `context`, if it is
/// there: the first such place.
pub fn position_of_handle(context: HtmlContext<'_>, handle: u32) -> (found: Option<usize>)
    ensures
        match found {
            Some(index) => {
                &&& index < context@.len()
                &&& context@[index as int].handle == handle
                &&& !has_handle(path_view(context@).take(index as int), handle)
            },
            None => !has_handle(path_view(context@), handle),
        },
{
    let mut i: usize = 0;
    while i < context.len()
        invariant
            i <= context@.len(),
            !has_handle(path_view(context@).take(i as int), handle),
        decreases context@.len() - i,
    {
        if context[i].handle == handle {
            return Some(i);
        }
        proof {
            let longer = path_view(context@).take(i + 1);
            assert forall|k: int| 0 <= k < longer.len() implies (#[trigger] longer[k]).handle
                != handle by {
                if k < i {
                    assert(path_view(context@).take(i as int)[k].handle != handle);
                }
            }
        }
        i += 1;
    }
    proof {
        assert(path_view(context@).take(i as int) =~= path_view(context@));
    }
    None
}

/// The value of the first attribute of `attrs` that is called `name`.
pub open spec fn attr_value(attrs: Seq<AttributeView>, name: QualNameView) -> Option<Seq<char>>
    decreases attrs.len(),
{
    if attrs.len() == 0 {
        None
    } else {
        match attr_value(attrs.drop_last(), name) {
            Some(value) => Some(value),
            None => if attrs.last().name == name {
                Some(attrs.last().value)
            } else {
                None
            },
        }
    }
}

/// A value found among the first `n` attributes is the value found among all.
pub proof fn lemma_attr_value_prefix(attrs: Seq<AttributeView>, name: QualNameView, n: int)
    requires
        0 <= n <= attrs.len(),
        attr_value(attrs.take(n), name) is Some,
    ensures
        attr_value(attrs, name) == attr_value(attrs.take(n), name),
    decreases attrs.len(),
{
    if n < attrs.len() {
        assert(attrs.drop_last().take(n) =~= attrs.take(n));
        lemma_attr_value_prefix(attrs.drop_last(), name, n);
    } else {
        assert(attrs.take(n) =~= attrs);
    }
}

/// The name of the attribute that lists the classes of an element.
pub open spec fn class_name() -> QualNameView {
    QualNameView { prefix: None, ns: Seq::empty(), local: "class"@ }
}

/// The words that `str::split_whitespace` finds in a text, in order.
pub uninterp spec fn whitespace_split(text: Seq<char>) -> Seq<Seq<char>>;

/// `str::split_whitespace` of std, each word copied into a `String`: the
/// words of the text that white space separates, in order.
#[verifier::external_body]
fn split_whitespace(text: &str) -> (words: Vec<String>)
    ensures
        words.deep_view() == whitespace_split(text@),
{
    text.split_whitespace().map(|word| word.to_owned()).collect()
}

/// The classes that a list of attributes names: the words of its `class`
/// attribute, and none where it has no such attribute.
pub open spec fn classes_of(attrs: Seq<AttributeView>) -> Seq<Seq<char>> {
    match attr_value(attrs, class_name()) {
        Some(value) => whitespace_split(value),
        None => Seq::empty(),
    }
}

impl HtmlPathElement {
    /// The value of the first attribute called `name`.
    pub fn attr(&self, name: QualName) -> (value: Option<&String>)
        ensures
            match value {
                Some(v) => attr_value(self@.attrs, name@) == Some(v@),
                None => attr_value(self@.attrs, name@) is None,
            },
    {
        let ghost attrs = self@.attrs;
        let mut i: usize = 0;
        while i < self.attrs.len()
            invariant
                i <= self.attrs.len(),
                attrs == attrs_view(self.attrs@),
                attr_value(attrs.take(i as int), name@) is None,
            decreases self.attrs.len() - i,
        {
            proof {
                assert(attrs.take(i + 1).drop_last() =~= attrs.take(i as int));
                assert(attrs.take(i + 1).last() == self.attrs@[i as int]@);
            }
            if self.attrs[i].name.same_as(&name) {
                proof {
                    lemma_attr_value_prefix(attrs, name@, i + 1);
                }
                return Some(&self.attrs[i].value);
            }
            i += 1;
        }
        proof {
            assert(attrs.take(i as int) =~= attrs);
        }
        None
    }

    /// The classes of the element.
    pub fn classes(&self) -> (classes: Vec<String>)
        ensures
            classes.deep_view() == classes_of(self@.attrs),
    {
        let name = QualName::new("", "class");
        proof {
            reveal_strlit("");
            assert(""@ =~= Seq::<char>::empty());
        }
        match self.attr(name) {
            Some(value) => split_whitespace(value.as_str()),
            None => {
                let none: Vec<String> = Vec::new();
                assert(none.deep_view() =~= Seq::<Seq<char>>::empty());
                none
            },
        }
    }
}

/// The decimal digits that `u32::to_string` writes for a number.
pub uninterp spec fn decimal(number: u32) -> Seq<char>;

/// `u32::to_string` of std: the number in decimal digits.
#[verifier::external_body]
pub(crate) fn decimal_text(number: u32) -> (text: String)
    ensures
        text@ == decimal(number),
{
    number.to_string()
}

/// The attributes as they stand in a description: for each a blank, the
/// local name, `="`, the value as it is and `"`.
pub open spec fn attrs_text(attrs: Seq<AttributeView>) -> Seq<char>
    decreases attrs.len(),
{
    if attrs.len() == 0 {
        Seq::empty()
    } else {
        attrs_text(attrs.drop_last()) + " "@ + attrs.last().name.local + "=\""@
            + attrs.last().value + "\""@
    }
}

/// The description of an element: `#`, the handle, ` <`, the local name,
/// the attributes and `>`.
pub open spec fn description(element: ElementView) -> Seq<char> {
    "#"@ + decimal(element.handle) + " <"@ + element.name.local + attrs_text(element.attrs) + ">"@
}

/// Adds the attributes to a description.
pub(crate) fn describe_attrs(text: &mut String, attrs: &Vec<Attribute>)
    ensures
        final(text)@ == old(text)@ + attrs_text(attrs_view(attrs@)),
{
    let ghost start = text@;
    let ghost all = attrs_view(attrs@);
    let mut i: usize = 0;
    proof {
        assert(start + attrs_text(all.take(0)) =~= start);
    }
    while i < attrs.len()
        invariant
            i <= attrs.len(),
            all == attrs_view(attrs@),
            text@ == start + attrs_text(all.take(i as int)),
        decreases attrs.len() - i,
    {
        let ghost before = attrs_text(all.take(i as int));
        text.append(" ");
        text.append(attrs[i].name.local.as_str());
        text.append("=\"");
        text.append(attrs[i].value.as_str());
        text.append("\"");
        proof {
            assert(all.take(i + 1).drop_last() =~= all.take(i as int));
            assert(all.take(i + 1).last() == attrs@[i as int]@);
            assert(text@ =~= start + (before + " "@ + attrs@[i as int]@.name.local + "=\""@
                + attrs@[i as int]@.value + "\""@));
        }
        i += 1;
    }
    proof {
        assert(all.take(i as int) =~= all);
    }
}

impl HtmlPathElement {
    /// The element in a line of text, for messages.
    pub fn describe(&self) -> (text: String)
        ensures
            text@ == description(self@),
    {
        let mut text = "#".to_owned();
        text.append(decimal_text(self.handle).as_str());
        text.append(" <");
        text.append(self.name.local.as_str());
        describe_attrs(&mut text, &self.attrs);
        text.append(">");
        proof {
            assert(text@ =~= description(self@));
        }
        text
    }
}

} // verus!
