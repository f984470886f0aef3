//! The serializer of html5ever, as far as this library relies on it.
//!
//! Nothing in this file is proved. The functions at its end call html5ever,
//! and each states what the source of html5ever shows of the function it
//! calls; the rest of the library is proved against these statements. The
//! spec functions before them are the words in which they are stated.

use vstd::prelude::*;
use vstd::utf8::encode_utf8;
use html5ever::serialize::Serializer;
use crate::element::{Attribute, AttributeView, QualName, QualNameView, attrs_view};
use crate::options::{SerializeOpts, TraversalScope, root_name};

verus! {

/// An `html5ever::serialize::HtmlSerializer` that writes into a `Vec<u8>`, a
/// value that Verus carries without looking inside.
#[verifier::external_body]
pub struct MarkupWriter {
    ser: html5ever::serialize::HtmlSerializer<Vec<u8>>,
}

/// The namespace of HTML elements.
pub open spec fn html_ns() -> Seq<char> {
    "http://www.w3.org/1999/xhtml"@
}

/// The local name of an HTML element, and nothing for an element of another
/// namespace.
pub open spec fn html_name(name: QualNameView) -> Option<Seq<char>> {
    if name.ns == html_ns() {
        Some(name.local)
    } else {
        None
    }
}

/// Whether `name` is an HTML element that has no end tag and no children.
pub open spec fn is_void(name: QualNameView) -> bool {
    name.ns == html_ns() && (name.local == "area"@ || name.local == "base"@ || name.local
        == "basefont"@ || name.local == "bgsound"@ || name.local == "br"@ || name.local == "col"@
        || name.local == "embed"@ || name.local == "frame"@ || name.local == "hr"@ || name.local
        == "img"@ || name.local == "input"@ || name.local == "keygen"@ || name.local == "link"@
        || name.local == "meta"@ || name.local == "param"@ || name.local == "source"@
        || name.local == "track"@ || name.local == "wbr"@)
}

/// The bytes `</`, the local name and `>`.
pub open spec fn end_tag(name: QualNameView) -> Seq<u8> {
    encode_utf8("</"@) + encode_utf8(name.local) + encode_utf8(">"@)
}

/// The bytes `<!--`, the text and `-->`.
pub open spec fn comment_markup(text: Seq<char>) -> Seq<u8> {
    encode_utf8("<!--"@) + encode_utf8(text) + encode_utf8("-->"@)
}

/// The bytes `<!DOCTYPE `, the name and `>`.
pub open spec fn doctype_markup(name: Seq<char>) -> Seq<u8> {
    encode_utf8("<!DOCTYPE "@) + encode_utf8(name) + encode_utf8(">"@)
}

/// The bytes that the serializer's writer holds.
pub uninterp spec fn written(ser: MarkupWriter) -> Seq<u8>;

/// The serializer's stack, the entry of the root first: for each open element
/// its HTML name, if it has one, and whether its children are left out.
pub uninterp spec fn open_tags(ser: MarkupWriter) -> Seq<(Option<Seq<char>>, bool)>;

/// Whether the serializer was made with scripting enabled.
pub uninterp spec fn scripting(ser: MarkupWriter) -> bool;

/// The bytes of the start tag that `start_elem` writes for an element with this
/// name and these attributes.
pub uninterp spec fn start_tag(name: QualNameView, attrs: Seq<AttributeView>) -> Seq<u8>;

/// The bytes that `write_text` writes for `text` below a parent with the HTML
/// name `parent`.
pub uninterp spec fn text_markup(parent: Option<Seq<char>>, scripting: bool, text: Seq<char>) -> Seq<
    u8,
>;

/// `html5ever::serialize::HtmlSerializer::new` with an empty `Vec<u8>` as the
/// writer: the stack holds the entry of the root alone, whose children are
/// written.
#[verifier::external_body]
pub(crate) fn new_serializer(opts: &SerializeOpts) -> (ser: MarkupWriter)
    ensures
        written(ser) == Seq::<u8>::empty(),
        open_tags(ser) == seq![(root_name(*opts), false)],
        scripting(ser) == opts.scripting_enabled,
{
    let convert = |n: &QualName| {
        let prefix = n.prefix.as_deref().map(html5ever::Prefix::from);
        html5ever::QualName::new(prefix, n.ns.as_str().into(), n.local.as_str().into())
    };
    let traversal_scope = match &opts.traversal_scope {
        TraversalScope::IncludeNode => html5ever::serialize::TraversalScope::IncludeNode,
        TraversalScope::ChildrenOnly(name) => html5ever::serialize::TraversalScope::ChildrenOnly(name.as_ref().map(convert)),
    };
    let opts = html5ever::serialize::SerializeOpts {
        scripting_enabled: opts.scripting_enabled,
        traversal_scope,
        create_missing_parent: opts.create_missing_parent,
    };
    MarkupWriter { ser: html5ever::serialize::HtmlSerializer::new(Vec::new(), opts) }
}

/// `Serializer::start_elem` of html5ever's `HtmlSerializer`: pushes an entry for
/// the element, and writes its start tag unless the children of its parent are
/// left out. The children of the new element are left out if those of its
/// parent are, or if it is a void element.
#[verifier::external_body]
pub(crate) fn start_elem(
    ser: &mut MarkupWriter,
    name: &QualName,
    attrs: &Vec<Attribute>,
)
    requires
        open_tags(*old(ser)).len() > 0,
    ensures
        scripting(*final(ser)) == scripting(*old(ser)),
        open_tags(*final(ser)) == open_tags(*old(ser)).push(
            (html_name(name@), open_tags(*old(ser)).last().1 || is_void(name@)),
        ),
        written(*final(ser)) == written(*old(ser)) + (if open_tags(*old(ser)).last().1 {
            Seq::<u8>::empty()
        } else {
            start_tag(name@, attrs_view(attrs@))
        }),
{
    let convert = |n: &QualName| {
        let prefix = n.prefix.as_deref().map(html5ever::Prefix::from);
        html5ever::QualName::new(prefix, n.ns.as_str().into(), n.local.as_str().into())
    };
    let names: Vec<html5ever::QualName> = attrs.iter().map(|a| convert(&a.name)).collect();
    let pairs = names.iter().zip(attrs.iter()).map(|(n, a)| (n, a.value.as_str()));
    ser.ser.start_elem(convert(name), pairs).unwrap();
}

/// `Serializer::end_elem` of html5ever's `HtmlSerializer`: pops the innermost
/// entry, and writes the end tag unless the children of that entry were left
/// out.
#[verifier::external_body]
pub(crate) fn end_elem(ser: &mut MarkupWriter, name: &QualName)
    requires
        open_tags(*old(ser)).len() > 0,
    ensures
        scripting(*final(ser)) == scripting(*old(ser)),
        open_tags(*final(ser)) == open_tags(*old(ser)).drop_last(),
        written(*final(ser)) == written(*old(ser)) + (if open_tags(*old(ser)).last().1 {
            Seq::<u8>::empty()
        } else {
            end_tag(name@)
        }),
{
    let prefix = name.prefix.as_deref().map(html5ever::Prefix::from);
    let (ns, local) = (name.ns.as_str().into(), name.local.as_str().into());
    ser.ser.end_elem(html5ever::QualName::new(prefix, ns, local)).unwrap();
}

/// `Serializer::write_text` of html5ever's `HtmlSerializer`: writes the text,
/// escaped or not as the innermost entry's name and the scripting flag decide.
#[verifier::external_body]
pub(crate) fn write_text(ser: &mut MarkupWriter, text: &str)
    requires
        open_tags(*old(ser)).len() > 0,
    ensures
        scripting(*final(ser)) == scripting(*old(ser)),
        open_tags(*final(ser)) == open_tags(*old(ser)),
        written(*final(ser)) == written(*old(ser)) + text_markup(
            open_tags(*old(ser)).last().0,
            scripting(*old(ser)),
            text@,
        ),
{
    ser.ser.write_text(text).unwrap();
}

/// `Serializer::write_comment` of html5ever's `HtmlSerializer`: writes `<!--`,
/// the text as it is, and `-->`.
#[verifier::external_body]
pub(crate) fn write_comment(ser: &mut MarkupWriter, text: &str)
    ensures
        scripting(*final(ser)) == scripting(*old(ser)),
        open_tags(*final(ser)) == open_tags(*old(ser)),
        written(*final(ser)) == written(*old(ser)) + comment_markup(text@),
{
    ser.ser.write_comment(text).unwrap();
}

/// `Serializer::write_doctype` of html5ever's `HtmlSerializer`: writes
/// `<!DOCTYPE `, the name as it is, and `>`.
#[verifier::external_body]
pub(crate) fn write_doctype(ser: &mut MarkupWriter, name: &str)
    ensures
        scripting(*final(ser)) == scripting(*old(ser)),
        open_tags(*final(ser)) == open_tags(*old(ser)),
        written(*final(ser)) == written(*old(ser)) + doctype_markup(name@),
{
    ser.ser.write_doctype(name).unwrap();
}

/// `std::mem::take` on the public field `writer` of html5ever's
/// `HtmlSerializer`: hands the written bytes out and leaves an empty writer.
#[verifier::external_body]
pub(crate) fn take_written(ser: &mut MarkupWriter) -> (bytes: Vec<u8>)
    ensures
        bytes@ == written(*old(ser)),
        written(*final(ser)) == Seq::<u8>::empty(),
        scripting(*final(ser)) == scripting(*old(ser)),
        open_tags(*final(ser)) == open_tags(*old(ser)),
{
    std::mem::take(&mut ser.ser.writer)
}

} // verus!
