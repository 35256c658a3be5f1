use std::collections::BTreeSet;

use proc_macro2::{Delimiter as TreeDelimiter, Spacing, TokenStream, TokenTree};

use vgtk::markup::combo::{err, expect, ok, or, is_named, Description, Error, Expected, Success};
use vgtk::markup::context::{Attribute, GtkElement, GtkWidget};
use vgtk::markup::parser::{
    async_closure, attribute, attributes, bare_closure, closure, closure_args, component, element,
    elements, end_tag, group, handler_attr, ident, literal, match_ident, not_punct, paren_group,
    properties, property_attr, punct, rust_expr, rust_type, rust_type_args, rust_type_list,
    rust_type_path, widget, widget_constructor,
};
use vgtk::markup::parser::is_same_name;
use vgtk::markup::token::{is_ident_at, is_punct_at, Delimiter, Span, Token};

/// The source, as the trees of its top level and as the tokens that the
/// parsers read.
struct Source {
    trees: Vec<TokenTree>,
    tokens: Vec<Token>,
}

fn lex(text: &str) -> Source {
    let stream: TokenStream = text.parse().unwrap();
    let trees: Vec<TokenTree> = stream.into_iter().collect();
    let tokens = trees
        .iter()
        .map(|tree| match tree {
            TokenTree::Ident(i) => Token::Ident(i.to_string()),
            TokenTree::Literal(_) => Token::Literal,
            TokenTree::Punct(p) => Token::Punct(p.as_char()),
            TokenTree::Group(g) => Token::Group(match g.delimiter() {
                TreeDelimiter::Parenthesis => Delimiter::Parenthesis,
                TreeDelimiter::Brace => Delimiter::Brace,
                TreeDelimiter::Bracket => Delimiter::Bracket,
                TreeDelimiter::None => Delimiter::NoDelim,
            }),
        })
        .collect();
    Source { trees, tokens }
}

/// The trees with a blank between any two, but behind a punctuation mark
/// that is joined to the next.
fn spaced(trees: &[TokenTree]) -> String {
    let mut out = String::new();
    let mut joint = false;
    for (i, tree) in trees.iter().enumerate() {
        if i != 0 && !joint {
            out.push(' ');
        }
        joint = false;
        match tree {
            TokenTree::Group(g) => {
                let inner: Vec<TokenTree> = g.stream().into_iter().collect();
                let (open, close) = match g.delimiter() {
                    TreeDelimiter::Parenthesis => ("(", ")"),
                    TreeDelimiter::Brace => ("{", "}"),
                    TreeDelimiter::Bracket => ("[", "]"),
                    TreeDelimiter::None => ("", ""),
                };
                out.push_str(&format!("{} {} {}", open, spaced(&inner), close).replace("  ", " "));
            }
            TokenTree::Punct(p) => {
                joint = p.spacing() == Spacing::Joint;
                out.push(p.as_char());
            }
            other => out.push_str(&other.to_string()),
        }
    }
    out
}

/// The trees without blanks.
fn dense(trees: &[TokenTree]) -> String {
    trees.iter().map(|t| t.to_string()).collect()
}

fn inside(tree: &TokenTree) -> Vec<TokenTree> {
    match tree {
        TokenTree::Group(g) => g.stream().into_iter().collect(),
        other => vec![other.clone()],
    }
}

impl Source {
    fn run(&self, span: Span) -> &[TokenTree] {
        &self.trees[span.start..span.end]
    }

    fn text(&self, index: usize) -> String {
        self.trees[index].to_string()
    }

    /// A value in braces is written as what the braces hold, in braces.
    fn value(&self, span: Span) -> String {
        let run = self.run(span);
        match run {
            [TokenTree::Group(g)] if g.delimiter() == TreeDelimiter::Brace => {
                format!("{{{}}}", spaced(&inside(&run[0])))
            }
            _ => spaced(run),
        }
    }

    /// An attribute as its name and its value.
    fn attribute(&self, attr: &Attribute) -> (String, String) {
        match attr {
            Attribute::Property { child, parent, name, value } => {
                let path = dense(self.run(*parent));
                let name = self.text(*name);
                let written = if *child || parent.start == parent.end {
                    format!("{}{}", path, name)
                } else {
                    format!("@{}{}", path, name)
                };
                (written, self.value(*value))
            }
            Attribute::Handler { name, async_keyword, args, body } => {
                let body: Vec<TokenTree> = self.run(*body).iter().flat_map(inside).collect();
                let closure = format!("| {} | {}", spaced(self.run(*args)), spaced(&body));
                let closure = match async_keyword {
                    Some(_) => format!("async {}", closure),
                    None => closure,
                };
                (format!("on {}", self.text(*name)), format!("{{{}}}", closure))
            }
        }
    }

    fn expected(&self, error: &Error) -> BTreeSet<String> {
        error
            .expected
            .iter()
            .map(|e| match e {
                Expected::Identifier => "an identifier".to_string(),
                Expected::Literal => "a literal".to_string(),
                Expected::CodeBlock => "a code block".to_string(),
                Expected::ParenBlock => "a parenthesised block".to_string(),
                Expected::Punct(c) => format!("\"{}\"", c),
                Expected::NotPunct(c) => format!("anything but \"{}\"", c),
                Expected::NotPunctOrEnd(c) => format!("anything but \"{}\" or EOF", c),
                Expected::Word(w) => format!("\"{}\"", w),
                Expected::TagName(i) => self.text(*i),
            })
            .collect()
    }
}

fn describe(description: Option<Description>) -> Option<String> {
    description.map(|d| d.message().to_string())
}

fn assert_widget<'a>(
    source: &Source,
    (name, attrs): (&str, &[(&str, &str)]),
    el: &'a GtkElement,
) -> &'a GtkWidget {
    match el {
        GtkElement::Widget(el) => {
            assert_eq!(name, &source.text(el.name));
            for (attr, expect) in el.attributes.iter().zip(attrs.iter()) {
                let (name, value) = source.attribute(attr);
                assert_eq!((name.as_str(), value.as_str()), *expect);
            }
            el
        }
        _ => panic!("expected GtkWidget"),
    }
}

fn failure(position: usize, expected: Vec<Expected>, fatal: bool) -> Error {
    Error { position, expected, description: None, fatal }
}

fn span(start: usize, end: usize) -> Span {
    Span { start, end }
}

#[test]
fn parse_type() {
    let source = lex("Node<Foo::Model, Foo::Bar::View<S, T, A, B>>");
    match rust_type(&source.tokens, 0) {
        Ok(Success { value: tokens, .. }) => {
            let text = spaced(source.run(tokens));
            assert_eq!("Node < Foo :: Model , Foo :: Bar :: View < S , T , A , B >>", text);
        }
        Err(err) => panic!("failed to parse: {:?}", err),
    };
}

#[test]
fn parse_elements() {
    let source = lex(
        "<Window::new() title=\"title\" width=500>
            <Button @Button::label=\"wibble\" />
            <Button on click=|_| {panic!()} label=\"wobble\" />
            <Label label={omg.lol()} Window::fill=true />
        </Window>",
    );
    match element(&source.tokens, 0) {
        Ok(Success { value: window, .. }) => {
            let window = assert_widget(
                &source,
                ("Window", &[("title", "\"title\""), ("width", "500")]),
                &window,
            );
            let mut children = window.children.iter();
            let button1 = children.next().unwrap();
            let button1 =
                assert_widget(&source, ("Button", &[("@Button::label", "\"wibble\"")]), button1);
            assert!(button1.children.is_empty());
            let button2 = children.next().unwrap();
            let button2 = assert_widget(
                &source,
                ("Button", &[("on click", "{| _ | panic ! ( )}"), ("label", "\"wobble\"")]),
                button2,
            );
            assert!(button2.children.is_empty());
            let label = children.next().unwrap();
            let label = assert_widget(
                &source,
                ("Label", &[("label", "{omg . lol ( )}"), ("Window::fill", "true")]),
                label,
            );
            assert!(label.children.is_empty());
            assert!(children.next().is_none());
        }
        Err(err) => panic!("failed to parse: {:?}", err),
    };
}

#[test]
fn wrong_closing_tag() {
    let source = lex(
        "<Window title=\"title\" width=500>
            <Button onlabel=\"wibble\" />
            <Button label=\"wobble\" />
            <Label label={omg.lol()}/>
        </Label>",
    );
    match element(&source.tokens, 0) {
        Ok(_) => panic!("successfully parsed an invalid tag"),
        Err(err) => {
            assert_eq!(Some("unexpected end tag".to_string()), describe(err.description));
            assert_eq!(true, err.fatal);
            let mut expected = std::collections::BTreeSet::new();
            expected.insert("Window".to_string());
            assert_eq!(expected, source.expected(&err));
            assert_eq!("Label", source.text(err.position));
        }
    };
}

#[test]
fn parse_elements_gives_the_whole_tree() {
    let source = lex(
        "<Window::new() title=\"title\" width=500>
            <Button @Button::label=\"wibble\" />
            <Button on click=|_| {panic!()} label=\"wobble\" />
            <Label label={omg.lol()} Window::fill=true />
        </Window>",
    );
    let parsed = element(&source.tokens, 0).unwrap();
    assert_eq!(parsed.next, source.tokens.len());
    assert_eq!(
        parsed.value,
        GtkElement::Widget(GtkWidget {
            name: 1,
            constructor: Some(span(2, 6)),
            attributes: vec![
                Attribute::Property { child: false, parent: span(6, 6), name: 6, value: span(8, 9) },
                Attribute::Property {
                    child: false,
                    parent: span(9, 9),
                    name: 9,
                    value: span(11, 12)
                },
            ],
            children: vec![
                GtkElement::Widget(GtkWidget {
                    name: 14,
                    constructor: None,
                    attributes: vec![Attribute::Property {
                        child: false,
                        parent: span(16, 19),
                        name: 19,
                        value: span(21, 22),
                    }],
                    children: vec![],
                }),
                GtkElement::Widget(GtkWidget {
                    name: 25,
                    constructor: None,
                    attributes: vec![
                        Attribute::Handler {
                            name: 27,
                            async_keyword: None,
                            args: span(30, 31),
                            body: span(32, 33),
                        },
                        Attribute::Property {
                            child: false,
                            parent: span(33, 33),
                            name: 33,
                            value: span(35, 36),
                        },
                    ],
                    children: vec![],
                }),
                GtkElement::Widget(GtkWidget {
                    name: 39,
                    constructor: None,
                    attributes: vec![
                        Attribute::Property {
                            child: false,
                            parent: span(40, 40),
                            name: 40,
                            value: span(42, 43),
                        },
                        Attribute::Property {
                            child: true,
                            parent: span(43, 46),
                            name: 46,
                            value: span(48, 49),
                        },
                    ],
                    children: vec![],
                }),
            ],
        })
    );
}

#[test]
fn single_tokens_are_matched_by_kind() {
    let source = lex("foo \"text\" + (a) {b} [c]");
    let t = &source.tokens;
    assert_eq!(ident(t, 0), Ok(Success { value: 0, next: 1 }));
    assert_eq!(ident(t, 1), Err(failure(1, vec![Expected::Identifier], false)));
    assert_eq!(ident(t, 6), Err(failure(6, vec![Expected::Identifier], false)));
    assert_eq!(literal(t, 1), Ok(Success { value: 1, next: 2 }));
    assert_eq!(literal(t, 0), Err(failure(0, vec![Expected::Literal], false)));
    assert_eq!(punct(t, 2, '+'), Ok(Success { value: 2, next: 3 }));
    assert_eq!(punct(t, 2, '-'), Err(failure(2, vec![Expected::Punct('-')], false)));
    assert_eq!(punct(t, 0, '+'), Err(failure(0, vec![Expected::Punct('+')], false)));
    assert_eq!(group(t, 3), Ok(Success { value: 3, next: 4 }));
    assert_eq!(group(t, 4), Ok(Success { value: 4, next: 5 }));
    assert_eq!(group(t, 5), Ok(Success { value: 5, next: 6 }));
    assert_eq!(group(t, 0), Err(failure(0, vec![Expected::CodeBlock], false)));
    assert_eq!(paren_group(t, 3), Ok(Success { value: 3, next: 4 }));
    assert_eq!(paren_group(t, 4), Err(failure(4, vec![Expected::ParenBlock], false)));
    assert_eq!(paren_group(t, 9), Err(failure(9, vec![Expected::ParenBlock], false)));
    assert_eq!(match_ident(t, 0, "foo"), Ok(Success { value: 0, next: 1 }));
    assert_eq!(match_ident(t, 0, "fo"), Err(failure(0, vec![Expected::Word("fo")], false)));
    assert_eq!(match_ident(t, 1, "foo"), Err(failure(1, vec![Expected::Word("foo")], false)));
}

#[test]
fn not_punct_takes_anything_else() {
    let source = lex("| x");
    let t = &source.tokens;
    assert_eq!(not_punct(t, 0, '|'), Err(failure(0, vec![Expected::NotPunct('|')], false)));
    assert_eq!(not_punct(t, 0, ','), Ok(Success { value: 0, next: 1 }));
    assert_eq!(not_punct(t, 1, '|'), Ok(Success { value: 1, next: 2 }));
    assert_eq!(not_punct(t, 2, '|'), Err(failure(2, vec![Expected::NotPunctOrEnd('|')], false)));
}

#[test]
fn expression_is_one_literal_group_or_identifier() {
    let source = lex("1 {x} y +");
    let t = &source.tokens;
    assert_eq!(rust_expr(t, 0), Ok(Success { value: span(0, 1), next: 1 }));
    assert_eq!(rust_expr(t, 1), Ok(Success { value: span(1, 2), next: 2 }));
    assert_eq!(rust_expr(t, 2), Ok(Success { value: span(2, 3), next: 3 }));
    assert_eq!(
        rust_expr(t, 3),
        Err(failure(
            3,
            vec![Expected::Literal, Expected::CodeBlock, Expected::Identifier],
            false
        ))
    );
}

#[test]
fn closures_are_matched_with_their_parameters() {
    let source = lex("|a, b| {a + b}");
    let t = &source.tokens;
    assert_eq!(closure_args(t, 0), Ok(Success { value: span(1, 4), next: 5 }));
    assert_eq!(bare_closure(t, 0), Ok(Success { value: (span(1, 4), span(5, 6)), next: 6 }));
    assert_eq!(closure(t, 0), Ok(Success { value: (None, (span(1, 4), span(5, 6))), next: 6 }));
    assert_eq!(closure_args(t, 1), Err(failure(1, vec![Expected::Punct('|')], false)));
    assert_eq!(
        async_closure(t, 0),
        Err(failure(0, vec![Expected::Word("async")], false))
    );

    let source = lex("async || done");
    let t = &source.tokens;
    assert_eq!(
        async_closure(t, 0),
        Ok(Success { value: (0, (span(2, 2), span(3, 4))), next: 4 })
    );
    assert_eq!(
        closure(t, 0),
        Ok(Success { value: (Some(0), (span(2, 2), span(3, 4))), next: 4 })
    );

    let source = lex("|a, b");
    assert_eq!(closure_args(&source.tokens, 0), Err(failure(4, vec![Expected::Punct('|')], true)));
    assert_eq!(closure(&source.tokens, 0), Err(failure(4, vec![Expected::Punct('|')], true)));

    let source = lex("|a| +");
    assert_eq!(
        bare_closure(&source.tokens, 0),
        Err(failure(
            3,
            vec![Expected::Literal, Expected::CodeBlock, Expected::Identifier],
            true
        ))
    );

    let source = lex("async x");
    assert_eq!(closure(&source.tokens, 0), Err(failure(1, vec![Expected::Punct('|')], false)));
    let source = lex("x");
    assert_eq!(
        closure(&source.tokens, 0),
        Err(failure(0, vec![Expected::Word("async"), Expected::Punct('|')], false))
    );
}

#[test]
fn paths_and_types_give_all_their_tokens() {
    let source = lex("a::b::c = d");
    let t = &source.tokens;
    assert_eq!(rust_type_path(t, 0), Ok(Success { value: span(0, 7), next: 7 }));
    assert_eq!(rust_type_path(t, 3), Ok(Success { value: span(3, 7), next: 7 }));
    assert_eq!(rust_type_path(t, 1), Err(failure(1, vec![Expected::Identifier], false)));
    assert_eq!(rust_type(t, 0), Ok(Success { value: span(0, 7), next: 7 }));

    let source = lex("a:: = d");
    assert_eq!(rust_type_path(&source.tokens, 0), Ok(Success { value: span(0, 1), next: 1 }));

    let source = lex("Vec<a::B, C<D>> x");
    let t = &source.tokens;
    assert_eq!(rust_type(t, 0), Ok(Success { value: span(0, 12), next: 12 }));
    assert_eq!(rust_type_args(t, 1), Ok(Success { value: span(1, 12), next: 12 }));
    assert_eq!(rust_type_list(t, 2), Ok(Success { value: span(2, 11), next: 11 }));
    assert_eq!(rust_type_list(t, 7), Ok(Success { value: span(7, 11), next: 11 }));
    assert_eq!(rust_type_args(t, 0), Err(failure(0, vec![Expected::Punct('<')], false)));
    assert_eq!(rust_type_list(t, 1), Err(failure(1, vec![Expected::Identifier], false)));

    let source = lex("Vec<a, > x");
    assert_eq!(rust_type_list(&source.tokens, 2), Ok(Success { value: span(2, 3), next: 3 }));
    assert_eq!(rust_type(&source.tokens, 0), Err(failure(3, vec![Expected::Punct('>')], true)));
    let source = lex("Vec<> x");
    assert_eq!(rust_type(&source.tokens, 0), Err(failure(2, vec![Expected::Identifier], true)));
}

#[test]
fn attributes_are_properties_or_handlers() {
    let source = lex("title=\"x\" @Box::fill=true Box::expand={1} on clicked=async |_| go rest");
    let t = &source.tokens;
    let title = Attribute::Property { child: false, parent: span(0, 0), name: 0, value: span(2, 3) };
    let fill = Attribute::Property { child: false, parent: span(4, 7), name: 7, value: span(9, 10) };
    let expand =
        Attribute::Property { child: true, parent: span(10, 13), name: 13, value: span(15, 16) };
    let clicked = Attribute::Handler {
        name: 17,
        async_keyword: Some(19),
        args: span(21, 22),
        body: span(23, 24),
    };
    assert_eq!(property_attr(t, 0), Ok(Success { value: title, next: 3 }));
    assert_eq!(attribute(t, 0), Ok(Success { value: title, next: 3 }));
    assert_eq!(property_attr(t, 3), Ok(Success { value: fill, next: 10 }));
    assert_eq!(attribute(t, 10), Ok(Success { value: expand, next: 16 }));
    assert_eq!(handler_attr(t, 16), Ok(Success { value: clicked, next: 24 }));
    assert_eq!(attribute(t, 16), Ok(Success { value: clicked, next: 24 }));
    assert_eq!(handler_attr(t, 0), Err(failure(0, vec![Expected::Word("on")], false)));
    assert_eq!(
        attributes(t, 0),
        Success { value: vec![title, fill, expand, clicked], next: 24 }
    );
    assert_eq!(properties(t, 0), Success { value: vec![title, fill, expand], next: 16 });
    assert_eq!(attributes(t, 24), Success { value: vec![], next: 24 });
    assert_eq!(attributes(t, 25), Success { value: vec![], next: 25 });
    assert_eq!(property_attr(t, 24), Err(failure(25, vec![Expected::Punct('=')], false)));
    assert_eq!(
        attribute(t, 25),
        Err(failure(25, vec![Expected::Word("on"), Expected::Identifier], false))
    );
}

#[test]
fn attributes_fail_fatally_once_they_have_begun() {
    let source = lex("title= /");
    assert_eq!(
        property_attr(&source.tokens, 0),
        Err(failure(
            2,
            vec![Expected::Literal, Expected::CodeBlock, Expected::Identifier],
            true
        ))
    );
    let source = lex("on = x");
    assert_eq!(handler_attr(&source.tokens, 0), Err(failure(1, vec![Expected::Identifier], true)));
    assert_eq!(attribute(&source.tokens, 0), Err(failure(1, vec![Expected::Identifier], true)));
    let source = lex("on click x");
    assert_eq!(handler_attr(&source.tokens, 0), Err(failure(2, vec![Expected::Punct('=')], true)));
    let source = lex("on click = x");
    assert_eq!(
        handler_attr(&source.tokens, 0),
        Err(failure(3, vec![Expected::Word("async"), Expected::Punct('|')], true))
    );
}

#[test]
fn end_tag_must_name_the_open_tag() {
    let source = lex("<Box> </Box> </Grid> </ > </Box <Box");
    let t = &source.tokens;
    assert_eq!(end_tag(t, 3, 1), Ok(Success { value: 5, next: 7 }));
    assert_eq!(
        end_tag(t, 7, 1),
        Err(Error {
            position: 9,
            expected: vec![Expected::TagName(1)],
            description: Some(Description::UnexpectedEndTag),
            fatal: true,
        })
    );
    assert_eq!(end_tag(t, 11, 1), Err(failure(13, vec![Expected::Identifier], true)));
    assert_eq!(end_tag(t, 14, 1), Err(failure(17, vec![Expected::Punct('>')], true)));
    assert_eq!(end_tag(t, 17, 1), Err(failure(18, vec![Expected::Punct('/')], false)));
    assert_eq!(end_tag(t, 1, 1), Err(failure(1, vec![Expected::Punct('<')], false)));
    assert_eq!(end_tag(t, 19, 1), Err(failure(19, vec![Expected::Punct('<')], false)));
    assert_eq!(
        end_tag(t, 3, 0),
        Err(Error {
            position: 5,
            expected: vec![Expected::TagName(0)],
            description: Some(Description::UnexpectedEndTag),
            fatal: true,
        })
    );
}

#[test]
fn widget_name_may_carry_a_constructor() {
    let source = lex("Window::new(1) Window::new Window");
    let t = &source.tokens;
    assert_eq!(
        widget_constructor(t, 0),
        Ok(Success { value: (0, Some(span(1, 5))), next: 5 })
    );
    assert_eq!(widget_constructor(t, 5), Ok(Success { value: (5, None), next: 6 }));
    assert_eq!(widget_constructor(t, 9), Ok(Success { value: (9, None), next: 10 }));
    assert_eq!(widget_constructor(t, 1), Err(failure(1, vec![Expected::Identifier], false)));
}

#[test]
fn component_tag_gives_type_and_properties() {
    let source = lex("<@Counter<Model> start=1 step={2} />");
    let parsed = component(&source.tokens, 0).unwrap();
    assert_eq!(parsed.next, 14);
    assert_eq!(parsed.value.name, span(2, 6));
    assert_eq!(
        parsed.value.attributes,
        vec![
            Attribute::Property { child: false, parent: span(6, 6), name: 6, value: span(8, 9) },
            Attribute::Property { child: false, parent: span(9, 9), name: 9, value: span(11, 12) },
        ]
    );
    match element(&source.tokens, 0) {
        Ok(Success { value: GtkElement::Component(c), next: 14 }) => assert_eq!(c, parsed.value),
        other => panic!("a component was expected: {:?}", other),
    }

    assert_eq!(
        component(&lex("<Counter />").tokens, 0).err(),
        Some(failure(1, vec![Expected::Punct('@')], false))
    );
    assert_eq!(
        component(&lex("<@ />").tokens, 0).err(),
        Some(failure(2, vec![Expected::Identifier], true))
    );
    assert_eq!(
        component(&lex("<@Counter >").tokens, 0).err(),
        Some(failure(3, vec![Expected::Punct('/')], false))
    );
    assert_eq!(
        component(&lex("<@Counter / x").tokens, 0).err(),
        Some(failure(4, vec![Expected::Punct('>')], true))
    );
    assert_eq!(
        component(&lex("Counter").tokens, 0).err(),
        Some(failure(0, vec![Expected::Punct('<')], false))
    );
}

#[test]
fn element_is_a_component_a_widget_or_a_block() {
    let source = lex("{ rows } <Box /> x");
    let t = &source.tokens;
    assert_eq!(element(t, 0), Ok(Success { value: GtkElement::Block(0), next: 1 }));
    let empty_box = GtkWidget { name: 2, constructor: None, attributes: vec![], children: vec![] };
    assert_eq!(widget(t, 1).map(|s| s.next), Ok(5));
    assert_eq!(
        elements(t, 0),
        Success { value: vec![GtkElement::Block(0), GtkElement::Widget(empty_box)], next: 5 }
    );
    assert_eq!(
        element(t, 5).err(),
        Some(failure(5, vec![Expected::Punct('<'), Expected::CodeBlock], false))
    );
    assert_eq!(elements(t, 5), Success { value: vec![], next: 5 });
    assert_eq!(elements(t, 6), Success { value: vec![], next: 6 });
}

#[test]
fn widget_tag_fails_where_it_breaks_off() {
    assert_eq!(
        widget(&lex("<Box x").tokens, 0).err(),
        Some(failure(2, vec![Expected::Punct('/'), Expected::Punct('>')], false))
    );
    assert_eq!(
        widget(&lex("<Box +").tokens, 0).err(),
        Some(failure(2, vec![Expected::Punct('/'), Expected::Punct('>')], false))
    );
    assert_eq!(
        widget(&lex("<Box / x").tokens, 0).err(),
        Some(failure(3, vec![Expected::Punct('>')], true))
    );
    assert_eq!(widget(&lex("< / >").tokens, 0).err(), Some(failure(1, vec![Expected::Identifier], true)));
    assert_eq!(
        widget(&lex("<Box> <Label />").tokens, 0).err(),
        Some(failure(7, vec![Expected::Punct('<')], false))
    );
    assert_eq!(
        element(&lex("<Box> <Label /> x").tokens, 0).err(),
        Some(failure(7, vec![Expected::Punct('<')], false))
    );
    assert_eq!(
        widget(&lex("<Box> <Label title= /> </Box>").tokens, 0).err(),
        Some(failure(4, vec![Expected::Punct('/')], false))
    );
}

#[test]
fn failures_merge_to_the_one_that_came_further() {
    let near = failure(2, vec![Expected::Identifier], false);
    let far = failure(5, vec![Expected::Punct('>')], false);
    assert_eq!(near.clone().merge(far.clone()), far);
    assert_eq!(far.clone().merge(near.clone()), far);
}

#[test]
fn failures_at_one_position_pool_what_they_expected() {
    let first = failure(3, vec![Expected::Identifier, Expected::Punct('<')], false);
    let second = Error {
        position: 3,
        expected: vec![
            Expected::Punct('<'),
            Expected::Word("on"),
            Expected::Identifier,
            Expected::Word("on"),
            Expected::TagName(1),
        ],
        description: Some(Description::UnexpectedEndTag),
        fatal: false,
    };
    assert_eq!(
        first.clone().merge(second.clone()),
        Error {
            position: 3,
            expected: vec![
                Expected::Identifier,
                Expected::Punct('<'),
                Expected::Word("on"),
                Expected::TagName(1),
            ],
            description: Some(Description::UnexpectedEndTag),
            fatal: false,
        }
    );
    assert_eq!(
        second.merge(first).expected,
        vec![
            Expected::Punct('<'),
            Expected::Word("on"),
            Expected::Identifier,
            Expected::Word("on"),
            Expected::TagName(1),
        ]
    );
}

#[test]
fn expectations_are_compared_by_what_they_expect() {
    assert!(Expected::Punct('<').is_same(&Expected::Punct('<')));
    assert!(!Expected::Punct('<').is_same(&Expected::Punct('>')));
    assert!(!Expected::Punct('<').is_same(&Expected::NotPunct('<')));
    assert!(!Expected::NotPunct('<').is_same(&Expected::NotPunctOrEnd('<')));
    assert!(Expected::Word("on").is_same(&Expected::Word("on")));
    assert!(!Expected::Word("on").is_same(&Expected::Word("async")));
    assert!(Expected::TagName(4).is_same(&Expected::TagName(4)));
    assert!(!Expected::TagName(4).is_same(&Expected::TagName(5)));
    assert!(Expected::Identifier.is_same(&Expected::Identifier));
    assert!(!Expected::Identifier.is_same(&Expected::Literal));
    assert!(Expected::CodeBlock.is_same(&Expected::CodeBlock));
    assert!(!Expected::CodeBlock.is_same(&Expected::ParenBlock));
    let list = vec![Expected::Literal, Expected::Word("on")];
    assert!(is_named(&list, &Expected::Word("on")));
    assert!(!is_named(&list, &Expected::Identifier));
}

#[test]
fn results_are_made_and_combined() {
    assert_eq!(ok(7u8, 3), Ok(Success { value: 7u8, next: 3 }));
    assert_eq!(err::<u8>(4, Expected::Literal), Err(failure(4, vec![Expected::Literal], false)));
    assert_eq!(Error::new(4, Expected::Literal), failure(4, vec![Expected::Literal], false));
    assert_eq!(
        failure(4, vec![Expected::Literal], false).into_fatal(),
        failure(4, vec![Expected::Literal], true)
    );
    assert_eq!(expect(ok(7u8, 3)), ok(7u8, 3));
    assert_eq!(
        expect(err::<u8>(4, Expected::Literal)),
        Err(failure(4, vec![Expected::Literal], true))
    );
    let first = || failure(4, vec![Expected::Identifier], false);
    assert_eq!(or(first(), ok(7u8, 3)), ok(7u8, 3));
    assert_eq!(
        or(first(), err::<u8>(4, Expected::Literal)),
        Err(failure(4, vec![Expected::Identifier, Expected::Literal], false))
    );
    assert_eq!(
        or(first(), expect(err::<u8>(2, Expected::Literal))),
        Err(failure(2, vec![Expected::Literal], true))
    );
    assert_eq!(Description::UnexpectedEndTag.message(), "unexpected end tag");
}

#[test]
fn tokens_are_told_by_position() {
    let source = lex("a < a b");
    let t = &source.tokens;
    assert!(is_ident_at(t, 0) && !is_ident_at(t, 1) && !is_ident_at(t, 4));
    assert!(is_punct_at(t, 1, '<') && !is_punct_at(t, 1, '>') && !is_punct_at(t, 0, '<'));
    assert!(!is_punct_at(t, 4, '<'));
    assert!(is_same_name(t, 0, 2) && is_same_name(t, 2, 0) && is_same_name(t, 3, 3));
    assert!(!is_same_name(t, 0, 3) && !is_same_name(t, 0, 1) && !is_same_name(t, 0, 4));
    assert_eq!(
        t,
        &vec![
            Token::Ident("a".to_string()),
            Token::Punct('<'),
            Token::Ident("a".to_string()),
            Token::Ident("b".to_string()),
        ]
    );
}
