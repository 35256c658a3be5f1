//! What the parsers make of the markup: elements and their attributes.

use vstd::prelude::*;

use crate::markup::token::Span;

verus! {

/// An attribute of a tag. Tokens are told by their indices in the list that
/// was parsed.
#[derive(Clone, Copy, Debug, PartialEq, Eq)]
pub enum Attribute {
    /// `path::name=value`. `parent` is the path before the name, with its
    /// last `::`; `child` says that the path is not empty and was not
    /// written behind an `@`: the property is then one of the child in its
    /// container.
    Property { child: bool, parent: Span, name: usize, value: Span },
    /// `on name=|args| body`, or the same with `async` before the closure.
    Handler { name: usize, async_keyword: Option<usize>, args: Span, body: Span },
}

/// A widget tag: its name, the constructor call written behind the name if
/// there is one, its attributes and the elements between it and its end tag.
#[derive(Debug, PartialEq, Eq)]
pub struct GtkWidget {
    pub name: usize,
    pub constructor: Option<Span>,
    pub attributes: Vec<Attribute>,
    pub children: Vec<GtkElement>,
}

/// A component tag: the component's type and its properties.
#[derive(Debug, PartialEq, Eq)]
pub struct GtkComponent {
    pub name: Span,
    pub attributes: Vec<Attribute>,
}

/// An element of the markup.
#[derive(Debug, PartialEq, Eq)]
pub enum GtkElement {
    Widget(GtkWidget),
    Component(GtkComponent),
    /// A group of tokens that stands for elements computed elsewhere: the
    /// index of the group.
    Block(usize),
}

/// What a [`GtkElement`] stands for.
pub enum Markup {
    Widget { name: usize, constructor: Option<Span>, attributes: Seq<Attribute>, children: Seq<Markup> },
    Component { name: Span, attributes: Seq<Attribute> },
    Block(usize),
}

/// What an element stands for.
pub open spec fn markup_of(element: GtkElement) -> Markup
    decreases element,
{
    match element {
        GtkElement::Widget(w) => Markup::Widget {
            name: w.name,
            constructor: w.constructor,
            attributes: w.attributes@,
            children: Seq::new(
                w.children@.len(),
                |i: int|
                    if 0 <= i < w.children@.len() {
                        markup_of(w.children@[i])
                    } else {
                        arbitrary()
                    },
            ),
        },
        GtkElement::Component(c) => Markup::Component { name: c.name, attributes: c.attributes@ },
        GtkElement::Block(i) => Markup::Block(i),
    }
}

/// What a list of elements stands for.
pub open spec fn markups(elements: Seq<GtkElement>) -> Seq<Markup> {
    Seq::new(elements.len(), |i: int| markup_of(elements[i]))
}

impl View for GtkElement {
    type V = Markup;

    open spec fn view(&self) -> Markup {
        markup_of(*self)
    }
}

impl View for GtkWidget {
    type V = Markup;

    open spec fn view(&self) -> Markup {
        Markup::Widget {
            name: self.name,
            constructor: self.constructor,
            attributes: self.attributes@,
            children: markups(self.children@),
        }
    }
}

impl View for GtkComponent {
    type V = Markup;

    open spec fn view(&self) -> Markup {
        Markup::Component { name: self.name, attributes: self.attributes@ }
    }
}

/// An element stands for the same thing whether it is looked at as an
/// element or as the widget or component that it holds.
pub proof fn lemma_element_view(e: GtkElement)
    ensures
        e matches GtkElement::Widget(w) ==> e@ == w@,
        e matches GtkElement::Component(c) ==> e@ == c@,
{
    match e {
        GtkElement::Widget(w) => {
            assert(e@->Widget_children =~= markups(w.children@));
        },
        _ => {},
    }
}

} // verus!
