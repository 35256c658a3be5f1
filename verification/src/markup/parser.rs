//! Parsers for the tag syntax. Each returns what the function of the same
//! name in [`grammar`](crate::markup::grammar) says.

use vstd::prelude::*;

use crate::markup::combo::{depicts, err, expect, models, ok, or, Description, Error, Expected, ParseResult, Success};
use crate::markup::context::{lemma_element_view, markups, Attribute, GtkComponent, GtkElement, GtkWidget, Markup};
use crate::markup::grammar;
use crate::markup::grammar::{left};
use crate::markup::token::{ident_at, is_ident_at, is_punct_at, punct_at, Delimiter, Span, Token};

verus! {

/// Matches the identifier `name`, and gives its index.
pub fn match_ident(input: &Vec<Token>, pos: usize, name: &'static str) -> (r: ParseResult<usize>)
    ensures
        models(r, grammar::match_ident(input@, pos as int, name)),
        r matches Ok(s) ==> s.next == pos + 1 && pos < input@.len(),
{
    if pos < input.len() {
        match &input[pos] {
            Token::Ident(s) => {
                let target: String = name.to_owned();
                if *s == target {
                    return ok(pos, pos + 1);
                }
            },
            _ => {},
        }
    }
    err(pos, Expected::Word(name))
}

/// Matches an identifier, and gives its index.
pub fn ident(input: &Vec<Token>, pos: usize) -> (r: ParseResult<usize>)
    ensures
        models(r, grammar::ident(input@, pos as int)),
        r matches Ok(s) ==> s.next == pos + 1 && pos < input@.len(),
{
    if is_ident_at(input, pos) {
        ok(pos, pos + 1)
    } else {
        err(pos, Expected::Identifier)
    }
}

/// Matches a literal, and gives its index.
pub fn literal(input: &Vec<Token>, pos: usize) -> (r: ParseResult<usize>)
    ensures
        models(r, grammar::literal(input@, pos as int)),
        r matches Ok(s) ==> s.next == pos + 1 && pos < input@.len(),
{
    if pos < input.len() {
        match &input[pos] {
            Token::Literal => {
                return ok(pos, pos + 1);
            },
            _ => {},
        }
    }
    err(pos, Expected::Literal)
}

/// Matches the punctuation mark `name`, and gives its index.
pub fn punct(input: &Vec<Token>, pos: usize, name: char) -> (r: ParseResult<usize>)
    ensures
        models(r, grammar::punct(input@, pos as int, name)),
        r matches Ok(s) ==> s.next == pos + 1 && pos < input@.len(),
{
    if is_punct_at(input, pos, name) {
        ok(pos, pos + 1)
    } else {
        err(pos, Expected::Punct(name))
    }
}

/// Matches any token but the punctuation mark `name`, and gives its index.
pub fn not_punct(input: &Vec<Token>, pos: usize, name: char) -> (r: ParseResult<usize>)
    ensures
        models(r, grammar::not_punct(input@, pos as int, name)),
        r matches Ok(s) ==> s.next == pos + 1 && pos < input@.len(),
{
    if is_punct_at(input, pos, name) {
        err(pos, Expected::NotPunct(name))
    } else if pos < input.len() {
        ok(pos, pos + 1)
    } else {
        err(pos, Expected::NotPunctOrEnd(name))
    }
}

/// Matches a group in brackets of any kind, and gives its index.
pub fn group(input: &Vec<Token>, pos: usize) -> (r: ParseResult<usize>)
    ensures
        models(r, grammar::group(input@, pos as int)),
        r matches Ok(s) ==> s.next == pos + 1 && pos < input@.len(),
{
    if pos < input.len() {
        match &input[pos] {
            Token::Group(_) => {
                return ok(pos, pos + 1);
            },
            _ => {},
        }
    }
    err(pos, Expected::CodeBlock)
}

/// Matches a group in round brackets, and gives its index.
pub fn paren_group(input: &Vec<Token>, pos: usize) -> (r: ParseResult<usize>)
    ensures
        models(r, grammar::paren_group(input@, pos as int)),
        r matches Ok(s) ==> s.next == pos + 1 && pos < input@.len(),
{
    if pos < input.len() {
        match &input[pos] {
            Token::Group(Delimiter::Parenthesis) => {
                return ok(pos, pos + 1);
            },
            _ => {},
        }
    }
    err(pos, Expected::ParenBlock)
}

/// Matches an expression: a literal, a group or an identifier. Blocks and
/// single tokens are all that is taken for one.
pub fn rust_expr(input: &Vec<Token>, pos: usize) -> (r: ParseResult<Span>)
    ensures
        models(r, grammar::rust_expr(input@, pos as int)),
        r matches Ok(s) ==> s.next == pos + 1 && pos < input@.len(),
{
    match literal(input, pos) {
        Ok(l) => ok(Span { start: l.value, end: l.value + 1 }, l.next),
        Err(e1) => match group(input, pos) {
            Ok(g) => ok(Span { start: g.value, end: g.value + 1 }, g.next),
            Err(e2) => {
                let e12 = e1.merge(e2);
                match ident(input, pos) {
                    Ok(i) => ok(Span { start: i.value, end: i.value + 1 }, i.next),
                    Err(e3) => Err(e12.merge(e3)),
                }
            },
        },
    }
}

/// Matches the parameters of a closure, `|` to `|`, and gives the tokens
/// between the two.
pub fn closure_args(input: &Vec<Token>, pos: usize) -> (r: ParseResult<Span>)
    ensures
        models(r, grammar::closure_args(input@, pos as int)),
        r matches Ok(s) ==> pos < s.next <= input@.len(),
{
    if !is_punct_at(input, pos, '|') {
        return err(pos, Expected::Punct('|'));
    }
    let mut end: usize = pos + 1;
    while end < input.len() && !is_punct_at(input, end, '|')
        invariant
            pos < end <= input@.len(),
            grammar::until_punct(input@, pos + 1, '|') == grammar::until_punct(input@, end as int, '|'),
        decreases input@.len() - end,
    {
        end = end + 1;
    }
    if is_punct_at(input, end, '|') {
        ok(Span { start: pos + 1, end }, end + 1)
    } else {
        expect(err(end, Expected::Punct('|')))
    }
}

/// Matches a closure: its parameters, then an expression. Gives the
/// parameters and the body.
pub fn bare_closure(input: &Vec<Token>, pos: usize) -> (r: ParseResult<(Span, Span)>)
    ensures
        models(r, grammar::bare_closure(input@, pos as int)),
        r matches Ok(s) ==> pos < s.next <= input@.len(),
{
    match closure_args(input, pos) {
        Err(e) => Err(e),
        Ok(args) => match expect(rust_expr(input, args.next)) {
            Err(e) => Err(e),
            Ok(body) => ok((args.value, body.value), body.next),
        },
    }
}

/// Matches `async` and a closure. Gives the index of `async` and the
/// closure.
pub fn async_closure(input: &Vec<Token>, pos: usize) -> (r: ParseResult<(usize, (Span, Span))>)
    ensures
        models(r, grammar::async_closure(input@, pos as int)),
        r matches Ok(s) ==> pos < s.next <= input@.len(),
{
    match match_ident(input, pos, "async") {
        Err(e) => Err(e),
        Ok(word) => match bare_closure(input, word.next) {
            Err(e) => Err(e),
            Ok(c) => ok((word.value, c.value), c.next),
        },
    }
}

/// Matches a closure with or without `async` before it.
pub fn closure(input: &Vec<Token>, pos: usize) -> (r: ParseResult<(Option<usize>, (Span, Span))>)
    ensures
        models(r, grammar::closure(input@, pos as int)),
        r matches Ok(s) ==> pos < s.next <= input@.len(),
{
    match async_closure(input, pos) {
        Ok(c) => ok((Some(c.value.0), c.value.1), c.next),
        Err(e) => if e.fatal {
            Err(e)
        } else {
            match bare_closure(input, pos) {
                Ok(c) => ok((None, c.value), c.next),
                Err(g) => if g.fatal {
                    Err(g)
                } else {
                    Err(e.merge(g))
                },
            }
        },
    }
}

/// Matches a path: identifiers with `::` between them. Gives all of its
/// tokens.
pub fn rust_type_path(input: &Vec<Token>, pos: usize) -> (r: ParseResult<Span>)
    ensures
        models(r, grammar::rust_type_path(input@, pos as int)),
        r matches Ok(s) ==> pos < s.next <= input@.len() && s.value == (Span {
            start: pos,
            end: s.next,
        }) && ident_at(input@, s.next - 1),
{
    if !is_ident_at(input, pos) {
        return err(pos, Expected::Identifier);
    }
    let mut end: usize = pos + 1;
    while is_punct_at(input, end, ':') && is_punct_at(input, end + 1, ':') && is_ident_at(
        input,
        end + 2,
    )
        invariant
            pos < end <= input@.len(),
            ident_at(input@, end - 1),
            grammar::path_end(input@, pos + 1) == grammar::path_end(input@, end as int),
        decreases input@.len() - end,
    {
        end = end + 3;
    }
    ok(Span { start: pos, end }, end)
}

/// Matches a type: a path, and type arguments if they follow. Gives all of
/// its tokens.
pub fn rust_type(input: &Vec<Token>, pos: usize) -> (r: ParseResult<Span>)
    ensures
        models(r, grammar::rust_type(input@, pos as int)),
        r matches Ok(s) ==> pos < s.next <= input@.len(),
    decreases left(input@, pos as int), 2nat,
{
    match rust_type_path(input, pos) {
        Err(e) => Err(e),
        Ok(path) => match rust_type_args(input, path.next) {
            Ok(args) => ok(Span { start: pos, end: args.next }, args.next),
            Err(e) => if e.fatal {
                Err(e)
            } else {
                Ok(path)
            },
        },
    }
}

/// Matches type arguments: `<`, a list of types, `>`. Gives all of their
/// tokens.
pub fn rust_type_args(input: &Vec<Token>, pos: usize) -> (r: ParseResult<Span>)
    ensures
        models(r, grammar::rust_type_args(input@, pos as int)),
        r matches Ok(s) ==> pos < s.next <= input@.len(),
        r matches Err(e) ==> (e.fatal <==> punct_at(input@, pos as int, '<')),
    decreases left(input@, pos as int), 1nat,
{
    if !is_punct_at(input, pos, '<') {
        return err(pos, Expected::Punct('<'));
    }
    match rust_type_list(input, pos + 1) {
        Err(e) => Err(e.into_fatal()),
        Ok(list) => if is_punct_at(input, list.next, '>') {
            ok(Span { start: pos, end: list.next + 1 }, list.next + 1)
        } else {
            expect(err(list.next, Expected::Punct('>')))
        },
    }
}

/// Matches a list of types with `,` between them. Gives all of its tokens.
pub fn rust_type_list(input: &Vec<Token>, pos: usize) -> (r: ParseResult<Span>)
    ensures
        models(r, grammar::rust_type_list(input@, pos as int)),
        r matches Ok(s) ==> pos < s.next <= input@.len(),
    decreases left(input@, pos as int), 3nat,
{
    let first = match rust_type(input, pos) {
        Err(e) => {
            return Err(e);
        },
        Ok(first) => first,
    };
    let mut end: usize = first.next;
    loop
        invariant
            pos < end <= input@.len(),
            grammar::list_end(input@, first.next as int) == grammar::list_end(input@, end as int),
        ensures
            pos < end <= input@.len(),
            grammar::list_end(input@, first.next as int) == end,
        decreases input@.len() - end,
    {
        if !is_punct_at(input, end, ',') {
            break ;
        }
        match rust_type(input, end + 1) {
            Err(_) => {
                break ;
            },
            Ok(t) => {
                end = t.next;
            },
        }
    }
    ok(Span { start: pos, end }, end)
}

/// Matches a property: a path, which may stand behind an `@`, then `=` and
/// an expression. The last identifier of the path is the property's name.
pub fn property_attr(input: &Vec<Token>, pos: usize) -> (r: ParseResult<Attribute>)
    ensures
        models(r, grammar::property_attr(input@, pos as int)),
        r matches Ok(s) ==> pos < s.next <= input@.len(),
{
    let qualified: bool = is_punct_at(input, pos, '@');
    let start: usize = if qualified {
        pos + 1
    } else {
        pos
    };
    match rust_type_path(input, start) {
        Err(e) => Err(e),
        Ok(path) => if !is_punct_at(input, path.next, '=') {
            err(path.next, Expected::Punct('='))
        } else {
            match expect(rust_expr(input, path.next + 1)) {
                Err(e) => Err(e),
                Ok(value) => ok(
                    Attribute::Property {
                        child: !qualified && path.value.end - path.value.start > 1,
                        parent: Span { start: path.value.start, end: path.value.end - 1 },
                        name: path.value.end - 1,
                        value: value.value,
                    },
                    value.next,
                ),
            }
        },
    }
}

/// Matches a handler: `on`, the name of a signal, `=` and a closure.
pub fn handler_attr(input: &Vec<Token>, pos: usize) -> (r: ParseResult<Attribute>)
    ensures
        models(r, grammar::handler_attr(input@, pos as int)),
        r matches Ok(s) ==> pos < s.next <= input@.len(),
{
    let on = match match_ident(input, pos, "on") {
        Err(e) => {
            return Err(e);
        },
        Ok(on) => on,
    };
    let name = match ident(input, on.next) {
        Err(e) => {
            return Err(e.into_fatal());
        },
        Ok(name) => name,
    };
    if !is_punct_at(input, name.next, '=') {
        return expect(err(name.next, Expected::Punct('=')));
    }
    match closure(input, name.next + 1) {
        Err(e) => Err(e.into_fatal()),
        Ok(c) => ok(
            Attribute::Handler {
                name: name.value,
                async_keyword: c.value.0,
                args: c.value.1.0,
                body: c.value.1.1,
            },
            c.next,
        ),
    }
}

/// Matches an attribute: a handler or a property.
pub fn attribute(input: &Vec<Token>, pos: usize) -> (r: ParseResult<Attribute>)
    ensures
        models(r, grammar::attribute(input@, pos as int)),
        r matches Ok(s) ==> pos < s.next <= input@.len(),
{
    match handler_attr(input, pos) {
        Ok(a) => Ok(a),
        Err(e) => if e.fatal {
            Err(e)
        } else {
            or(e, property_attr(input, pos))
        },
    }
}

/// Matches attributes one after the other, as many as there are.
pub fn attributes(input: &Vec<Token>, pos: usize) -> (r: Success<Vec<Attribute>>)
    ensures
        r.value@ == grammar::attributes(input@, pos as int).value,
        r.next == grammar::attributes(input@, pos as int).next,
        pos <= r.next,
        r.next <= input@.len() || r.next == pos,
{
    let mut list: Vec<Attribute> = Vec::new();
    let mut at: usize = pos;
    let ghost goal = grammar::attributes(input@, pos as int);
    proof {
        assert(list@ + grammar::attributes(input@, at as int).value =~= goal.value);
    }
    loop
        invariant
            pos <= at,
            at <= input@.len() || at == pos,
            goal == grammar::attributes(input@, pos as int),
            list@ + grammar::attributes(input@, at as int).value == goal.value,
            grammar::attributes(input@, at as int).next == goal.next,
        ensures
            list@ == goal.value,
            at == goal.next,
            pos <= at,
            at <= input@.len() || at == pos,
        decreases left(input@, at as int),
    {
        match attribute(input, at) {
            Err(_) => {
                proof {
                    assert(list@ + Seq::<Attribute>::empty() =~= list@);
                }
                break ;
            },
            Ok(a) => {
                proof {
                    let rest = grammar::attributes(input@, a.next as int);
                    assert(list@.push(a.value) + rest.value =~= list@ + (seq![a.value] + rest.value));
                }
                list.push(a.value);
                at = a.next;
            },
        }
    }
    Success { value: list, next: at }
}

/// Matches properties one after the other, as many as there are.
pub fn properties(input: &Vec<Token>, pos: usize) -> (r: Success<Vec<Attribute>>)
    ensures
        r.value@ == grammar::properties(input@, pos as int).value,
        r.next == grammar::properties(input@, pos as int).next,
        pos <= r.next,
        r.next <= input@.len() || r.next == pos,
{
    let mut list: Vec<Attribute> = Vec::new();
    let mut at: usize = pos;
    let ghost goal = grammar::properties(input@, pos as int);
    proof {
        assert(list@ + grammar::properties(input@, at as int).value =~= goal.value);
    }
    loop
        invariant
            pos <= at,
            at <= input@.len() || at == pos,
            goal == grammar::properties(input@, pos as int),
            list@ + grammar::properties(input@, at as int).value == goal.value,
            grammar::properties(input@, at as int).next == goal.next,
        ensures
            list@ == goal.value,
            at == goal.next,
            pos <= at,
            at <= input@.len() || at == pos,
        decreases left(input@, at as int),
    {
        match property_attr(input, at) {
            Err(_) => {
                proof {
                    assert(list@ + Seq::<Attribute>::empty() =~= list@);
                }
                break ;
            },
            Ok(a) => {
                proof {
                    let rest = grammar::properties(input@, a.next as int);
                    assert(list@.push(a.value) + rest.value =~= list@ + (seq![a.value] + rest.value));
                }
                list.push(a.value);
                at = a.next;
            },
        }
    }
    Success { value: list, next: at }
}

/// Whether the tokens at the two indices are identifiers of one text.
pub fn is_same_name(input: &Vec<Token>, a: usize, b: usize) -> (same: bool)
    ensures
        same == grammar::same_name(input@, a as int, b as int),
{
    if a < input.len() && b < input.len() {
        match &input[a] {
            Token::Ident(x) => match &input[b] {
                Token::Ident(y) => *x == *y,
                _ => false,
            },
            _ => false,
        }
    } else {
        false
    }
}

/// Matches the end tag of the tag whose name is the token at `expected`:
/// `</`, that name, `>`. Gives the index of the name in the end tag.
pub fn end_tag(input: &Vec<Token>, pos: usize, expected: usize) -> (r: ParseResult<usize>)
    ensures
        models(r, grammar::end_tag(input@, pos as int, expected)),
        r matches Ok(s) ==> s.next == pos + 4 && s.next <= input@.len(),
{
    if !is_punct_at(input, pos, '<') {
        return err(pos, Expected::Punct('<'));
    }
    if !is_punct_at(input, pos + 1, '/') {
        return err(pos + 1, Expected::Punct('/'));
    }
    if !is_ident_at(input, pos + 2) {
        return expect(err(pos + 2, Expected::Identifier));
    }
    if !is_same_name(input, pos + 2, expected) {
        let mut e = Error::new(pos + 2, Expected::TagName(expected));
        e.description = Some(Description::UnexpectedEndTag);
        e.fatal = true;
        return Err(e);
    }
    if !is_punct_at(input, pos + 3, '>') {
        return expect(err(pos + 3, Expected::Punct('>')));
    }
    ok(pos + 2, pos + 4)
}

/// Matches the name of a widget and, if one follows, a constructor call:
/// `::`, an identifier and a group in round brackets.
pub fn widget_constructor(input: &Vec<Token>, pos: usize) -> (r: ParseResult<(usize, Option<Span>)>)
    ensures
        models(r, grammar::widget_constructor(input@, pos as int)),
        r matches Ok(s) ==> pos < s.next <= input@.len(),
{
    if !is_ident_at(input, pos) {
        return err(pos, Expected::Identifier);
    }
    if is_punct_at(input, pos + 1, ':') && is_punct_at(input, pos + 2, ':') && is_ident_at(
        input,
        pos + 3,
    ) {
        match paren_group(input, pos + 4) {
            Ok(_) => {
                return ok((pos, Some(Span { start: pos + 1, end: pos + 5 })), pos + 5);
            },
            Err(_) => {},
        }
    }
    ok((pos, None), pos + 1)
}

/// Matches a component tag: `<@`, a type, properties, `/>`.
pub fn component(input: &Vec<Token>, pos: usize) -> (r: ParseResult<GtkComponent>)
    ensures
        depicts(r, grammar::component(input@, pos as int)),
        r matches Ok(s) ==> pos < s.next <= input@.len(),
{
    if !is_punct_at(input, pos, '<') {
        return err(pos, Expected::Punct('<'));
    }
    if !is_punct_at(input, pos + 1, '@') {
        return err(pos + 1, Expected::Punct('@'));
    }
    let name = match rust_type(input, pos + 2) {
        Err(e) => {
            return Err(e.into_fatal());
        },
        Ok(name) => name,
    };
    let props = properties(input, name.next);
    if !is_punct_at(input, props.next, '/') {
        return err(props.next, Expected::Punct('/'));
    }
    if !is_punct_at(input, props.next + 1, '>') {
        return expect(err(props.next + 1, Expected::Punct('>')));
    }
    Ok(
        Success {
            value: GtkComponent { name: name.value, attributes: props.value },
            next: props.next + 2,
        },
    )
}

/// Matches an element: a component tag, a widget tag with all that it
/// holds, or a group of tokens.
pub fn element(input: &Vec<Token>, pos: usize) -> (r: ParseResult<GtkElement>)
    ensures
        depicts(r, grammar::element(input@, pos as int)),
        r matches Ok(s) ==> pos < s.next <= input@.len(),
    decreases left(input@, pos as int), 2nat,
{
    match component(input, pos) {
        Ok(c) => {
            let e = GtkElement::Component(c.value);
            proof {
                lemma_element_view(e);
            }
            Ok(Success { value: e, next: c.next })
        },
        Err(e1) => if e1.fatal {
            Err(e1)
        } else {
            match widget(input, pos) {
                Ok(w) => {
                    let e = GtkElement::Widget(w.value);
                    proof {
                        lemma_element_view(e);
                    }
                    Ok(Success { value: e, next: w.next })
                },
                Err(e2) => if e2.fatal {
                    Err(e2)
                } else {
                    let e12 = e1.merge(e2);
                    match group(input, pos) {
                        Ok(g) => Ok(Success { value: GtkElement::Block(g.value), next: g.next }),
                        Err(e3) => Err(e12.merge(e3)),
                    }
                },
            }
        },
    }
}

/// Matches a widget tag: `<`, a name with or without a constructor call,
/// and attributes; then either `/>`, or `>`, the elements that the widget
/// holds, and the end tag of the same name.
pub fn widget(input: &Vec<Token>, pos: usize) -> (r: ParseResult<GtkWidget>)
    ensures
        depicts(r, grammar::widget(input@, pos as int)),
        r matches Ok(s) ==> pos < s.next <= input@.len(),
    decreases left(input@, pos as int), 1nat,
{
    if !is_punct_at(input, pos, '<') {
        return err(pos, Expected::Punct('<'));
    }
    let head = match widget_constructor(input, pos + 1) {
        Err(e) => {
            return Err(e.into_fatal());
        },
        Ok(head) => head,
    };
    let attrs = attributes(input, head.next);
    let at: usize = attrs.next;
    if is_punct_at(input, at, '/') {
        if !is_punct_at(input, at + 1, '>') {
            return expect(err(at + 1, Expected::Punct('>')));
        }
        let w = GtkWidget {
            name: head.value.0,
            constructor: head.value.1,
            attributes: attrs.value,
            children: Vec::new(),
        };
        proof {
            assert(markups(w.children@) =~= Seq::<Markup>::empty());
        }
        return Ok(Success { value: w, next: at + 2 });
    }
    let slash = Error::new(at, Expected::Punct('/'));
    if !is_punct_at(input, at, '>') {
        return Err(slash.merge(Error::new(at, Expected::Punct('>'))));
    }
    let kids = elements(input, at + 1);
    match end_tag(input, kids.next, head.value.0) {
        Err(e) => if e.fatal {
            Err(e)
        } else {
            Err(slash.merge(e))
        },
        Ok(end) => Ok(
            Success {
                value: GtkWidget {
                    name: head.value.0,
                    constructor: head.value.1,
                    attributes: attrs.value,
                    children: kids.value,
                },
                next: end.next,
            },
        ),
    }
}

/// Matches elements one after the other, as many as there are.
pub fn elements(input: &Vec<Token>, pos: usize) -> (r: Success<Vec<GtkElement>>)
    ensures
        markups(r.value@) == grammar::elements(input@, pos as int).value,
        r.next == grammar::elements(input@, pos as int).next,
        pos <= r.next,
        r.next <= input@.len() || r.next == pos,
    decreases left(input@, pos as int), 3nat,
{
    let mut list: Vec<GtkElement> = Vec::new();
    let mut at: usize = pos;
    let ghost goal = grammar::elements(input@, pos as int);
    proof {
        assert(markups(list@) + grammar::elements(input@, at as int).value =~= goal.value);
    }
    loop
        invariant
            pos <= at,
            at <= input@.len() || at == pos,
            goal == grammar::elements(input@, pos as int),
            markups(list@) + grammar::elements(input@, at as int).value == goal.value,
            grammar::elements(input@, at as int).next == goal.next,
        ensures
            markups(list@) == goal.value,
            at == goal.next,
            pos <= at,
            at <= input@.len() || at == pos,
        decreases left(input@, at as int),
    {
        match element(input, at) {
            Err(_) => {
                proof {
                    assert(markups(list@) + Seq::<Markup>::empty() =~= markups(list@));
                }
                break ;
            },
            Ok(e) => {
                proof {
                    let rest = grammar::elements(input@, e.next as int);
                    assert(markups(list@.push(e.value)) =~= markups(list@).push(e.value@));
                    assert(markups(list@).push(e.value@) + rest.value =~= markups(list@) + (seq![
                        e.value@,
                    ] + rest.value));
                }
                list.push(e.value);
                at = e.next;
            },
        }
    }
    Success { value: list, next: at }
}

} // verus!
