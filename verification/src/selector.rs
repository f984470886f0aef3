//! The match capability that the stages depend on, and two plain selectors.

use vstd::prelude::*;
use crate::element::{ElementView, HtmlContext, HtmlPathElement, classes_of, path_view};

verus! {

/// A predicate on an element and the path of its ancestors.
pub trait ContextualSelector {
    /// Whether the selector takes `element` below `context`.
    spec fn selects(&self, context: Seq<ElementView>, element: ElementView) -> bool;

    /// Whether the selector takes `element` below `context`.
    fn context_match(&self, context: HtmlContext<'_>, element: &HtmlPathElement) -> (matched:
        bool)
        ensures
            matched == self.selects(path_view(context@), element@),
    ;
}

/// A predicate on an element alone, by its name and attributes.
pub trait Selector: ContextualSelector {
    /// Whether the selector takes `element`, wherever it stands.
    spec fn matches(&self, element: ElementView) -> bool;

    /// Whether the selector takes `element`, wherever it stands.
    fn is_match(&self, element: &HtmlPathElement) -> (matched: bool)
        ensures
            matched == self.matches(element@),
    ;
}

/// Takes the elements with a given local name.
#[derive(Debug)]
pub struct NameSelector {
    pub local: String,
}

impl NameSelector {
    /// The selector of the elements called `local`.
    pub fn new(local: &str) -> (selector: Self)
        ensures
            selector.local@ == local@,
    {
        NameSelector { local: local.to_owned() }
    }
}

impl ContextualSelector for NameSelector {
    open spec fn selects(&self, context: Seq<ElementView>, element: ElementView) -> bool {
        element.name.local == self.local@
    }

    fn context_match(&self, context: HtmlContext<'_>, element: &HtmlPathElement) -> (matched:
        bool) {
        element.name.local == self.local
    }
}

impl Selector for NameSelector {
    open spec fn matches(&self, element: ElementView) -> bool {
        element.name.local == self.local@
    }

    fn is_match(&self, element: &HtmlPathElement) -> (matched: bool) {
        element.name.local == self.local
    }
}

/// Takes the elements that carry a given class.
#[derive(Debug)]
pub struct ClassSelector {
    pub class: String,
}

impl ClassSelector {
    /// The selector of the elements that carry the class `class`.
    pub fn new(class: &str) -> (selector: Self)
        ensures
            selector.class@ == class@,
    {
        ClassSelector { class: class.to_owned() }
    }
}

impl ContextualSelector for ClassSelector {
    open spec fn selects(&self, context: Seq<ElementView>, element: ElementView) -> bool {
        classes_of(element.attrs).contains(self.class@)
    }

    fn context_match(&self, context: HtmlContext<'_>, element: &HtmlPathElement) -> (matched:
        bool) {
        self.is_match(element)
    }
}

impl Selector for ClassSelector {
    open spec fn matches(&self, element: ElementView) -> bool {
        classes_of(element.attrs).contains(self.class@)
    }

    fn is_match(&self, element: &HtmlPathElement) -> (matched: bool) {
        let classes = element.classes();
        let ghost words = classes_of(element@.attrs);
        let mut i: usize = 0;
        while i < classes.len()
            invariant
                i <= classes.len(),
                classes.deep_view() == words,
                words == classes_of(element@.attrs),
                forall|k: int| 0 <= k < i ==> words[k] != self.class@,
            decreases classes.len() - i,
        {
            assert(classes.deep_view()[i as int] == classes@[i as int]@);
            if classes[i] == self.class {
                assert(words[i as int] == self.class@);
                assert(words.contains(self.class@));
                return true;
            }
            i += 1;
        }
        assert(!words.contains(self.class@));
        false
    }
}

} // verus!
