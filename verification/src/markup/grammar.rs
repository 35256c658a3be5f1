//! The tag syntax, as functions of a token list and a position in it.

use vstd::prelude::*;

use crate::markup::combo::{either, expected, failure, success, Description, Expected, Failure, Match, Outcome};
use crate::markup::context::{Attribute, Markup};
use crate::markup::token::{ident_at, punct_at, Span, Token};

verus! {

/// How many tokens there are from `pos` on.
pub open spec fn left(tokens: Seq<Token>, pos: int) -> nat {
    if 0 <= pos <= tokens.len() {
        (tokens.len() - pos) as nat
    } else {
        0
    }
}

/// Whether a parser that began at `pos` and stopped at `next` has matched a
/// token. A repetition ends with the first item that has not.
pub open spec fn advances(tokens: Seq<Token>, pos: int, next: int) -> bool {
    0 <= pos < tokens.len() && next > pos
}

/// The one token at `pos`, as a run.
pub open spec fn one(pos: int) -> Span {
    Span { start: pos as usize, end: (pos + 1) as usize }
}

/// The tokens from `start` up to `end`, as a run.
pub open spec fn run(start: int, end: int) -> Span {
    Span { start: start as usize, end: end as usize }
}

/// Matches the identifier `name`, and gives its index.
pub open spec fn match_ident(tokens: Seq<Token>, pos: int, name: &'static str) -> Outcome<usize> {
    if 0 <= pos < tokens.len() && tokens[pos].is_word(name@) {
        success(pos as usize, pos + 1)
    } else {
        failure(pos, Expected::Word(name))
    }
}

/// Matches an identifier, and gives its index.
pub open spec fn ident(tokens: Seq<Token>, pos: int) -> Outcome<usize> {
    if ident_at(tokens, pos) {
        success(pos as usize, pos + 1)
    } else {
        failure(pos, Expected::Identifier)
    }
}

/// Matches a literal, and gives its index.
pub open spec fn literal(tokens: Seq<Token>, pos: int) -> Outcome<usize> {
    if 0 <= pos < tokens.len() && tokens[pos] is Literal {
        success(pos as usize, pos + 1)
    } else {
        failure(pos, Expected::Literal)
    }
}

/// Matches the punctuation mark `c`, and gives its index.
pub open spec fn punct(tokens: Seq<Token>, pos: int, c: char) -> Outcome<usize> {
    if punct_at(tokens, pos, c) {
        success(pos as usize, pos + 1)
    } else {
        failure(pos, Expected::Punct(c))
    }
}

/// Matches any token but the punctuation mark `c`, and gives its index.
pub open spec fn not_punct(tokens: Seq<Token>, pos: int, c: char) -> Outcome<usize> {
    if punct_at(tokens, pos, c) {
        failure(pos, Expected::NotPunct(c))
    } else if 0 <= pos < tokens.len() {
        success(pos as usize, pos + 1)
    } else {
        failure(pos, Expected::NotPunctOrEnd(c))
    }
}

/// Matches a group in brackets of any kind, and gives its index.
pub open spec fn group(tokens: Seq<Token>, pos: int) -> Outcome<usize> {
    if 0 <= pos < tokens.len() && tokens[pos] is Group {
        success(pos as usize, pos + 1)
    } else {
        failure(pos, Expected::CodeBlock)
    }
}

/// Matches a group in round brackets, and gives its index.
pub open spec fn paren_group(tokens: Seq<Token>, pos: int) -> Outcome<usize> {
    if 0 <= pos < tokens.len() && tokens[pos].is_paren_group() {
        success(pos as usize, pos + 1)
    } else {
        failure(pos, Expected::ParenBlock)
    }
}

/// The outcome of a parser of one token, with the token as a run.
pub open spec fn as_run(s: Outcome<usize>) -> Outcome<Span> {
    match s {
        Ok(a) => success(one(a.value as int), a.next),
        Err(f) => Err(f),
    }
}

/// Matches an expression: a literal, a group or an identifier.
pub open spec fn rust_expr(tokens: Seq<Token>, pos: int) -> Outcome<Span> {
    either(
        either(as_run(literal(tokens, pos)), as_run(group(tokens, pos))),
        as_run(ident(tokens, pos)),
    )
}

/// The position of the first token from `pos` on that is the punctuation
/// mark `c`, or the end of the list.
pub open spec fn until_punct(tokens: Seq<Token>, pos: int, c: char) -> int
    decreases left(tokens, pos),
{
    if 0 <= pos < tokens.len() && !tokens[pos].is_punct(c) {
        until_punct(tokens, pos + 1, c)
    } else {
        pos
    }
}

/// Matches the parameters of a closure, `|` to `|`, and gives the tokens
/// between the two. After the first `|` a failure is fatal.
pub open spec fn closure_args(tokens: Seq<Token>, pos: int) -> Outcome<Span> {
    if !punct_at(tokens, pos, '|') {
        failure(pos, Expected::Punct('|'))
    } else {
        let end = until_punct(tokens, pos + 1, '|');
        expected(
            if punct_at(tokens, end, '|') {
                success(run(pos + 1, end), end + 1)
            } else {
                failure(end, Expected::Punct('|'))
            },
        )
    }
}

/// Matches a closure: its parameters, then an expression, without which the
/// failure is fatal. Gives the parameters and the body.
pub open spec fn bare_closure(tokens: Seq<Token>, pos: int) -> Outcome<(Span, Span)> {
    match closure_args(tokens, pos) {
        Err(f) => Err(f),
        Ok(args) => match expected(rust_expr(tokens, args.next)) {
            Err(f) => Err(f),
            Ok(body) => success((args.value, body.value), body.next),
        },
    }
}

/// Matches `async` and a closure. Gives the index of `async` and the
/// closure.
pub open spec fn async_closure(tokens: Seq<Token>, pos: int) -> Outcome<(usize, (Span, Span))> {
    match match_ident(tokens, pos, "async") {
        Err(f) => Err(f),
        Ok(word) => match bare_closure(tokens, word.next) {
            Err(f) => Err(f),
            Ok(c) => success((word.value, c.value), c.next),
        },
    }
}

/// Matches a closure with or without `async` before it.
pub open spec fn closure(tokens: Seq<Token>, pos: int) -> Outcome<(Option<usize>, (Span, Span))> {
    either(
        match async_closure(tokens, pos) {
            Err(f) => Err(f),
            Ok(c) => success((Some(c.value.0), c.value.1), c.next),
        },
        match bare_closure(tokens, pos) {
            Err(f) => Err(f),
            Ok(c) => success((None, c.value), c.next),
        },
    )
}

/// Where a path that has matched up to `pos` ends: behind the last `::` and
/// identifier that follow each other from `pos` on.
pub open spec fn path_end(tokens: Seq<Token>, pos: int) -> int
    decreases left(tokens, pos),
{
    if punct_at(tokens, pos, ':') && punct_at(tokens, pos + 1, ':') && ident_at(tokens, pos + 2) {
        path_end(tokens, pos + 3)
    } else {
        pos
    }
}

/// Matches a path: identifiers with `::` between them. Gives all of its
/// tokens.
pub open spec fn rust_type_path(tokens: Seq<Token>, pos: int) -> Outcome<Span> {
    if ident_at(tokens, pos) {
        success(run(pos, path_end(tokens, pos + 1)), path_end(tokens, pos + 1))
    } else {
        failure(pos, Expected::Identifier)
    }
}

/// A path ends where it began or later, and inside the list.
pub proof fn lemma_path_end(tokens: Seq<Token>, pos: int)
    requires
        0 <= pos <= tokens.len(),
    ensures
        pos <= path_end(tokens, pos) <= tokens.len(),
    decreases left(tokens, pos),
{
    if punct_at(tokens, pos, ':') && punct_at(tokens, pos + 1, ':') && ident_at(tokens, pos + 2) {
        lemma_path_end(tokens, pos + 3);
    }
}

/// Matches a type: a path, and type arguments if they follow. Gives all of
/// its tokens.
pub open spec fn rust_type(tokens: Seq<Token>, pos: int) -> Outcome<Span>
    decreases left(tokens, pos), 2nat,
{
    match rust_type_path(tokens, pos) {
        Err(f) => Err(f),
        Ok(path) => {
            proof {
                lemma_path_end(tokens, pos + 1);
            }
            match rust_type_args(tokens, path.next) {
                Ok(args) => success(run(pos, args.next), args.next),
                Err(f) => if f.fatal {
                    Err(f)
                } else {
                    Ok(path)
                },
            }
        },
    }
}

/// Matches type arguments: `<`, a list of types, `>`. After the `<` a
/// failure is fatal. Gives all of their tokens.
pub open spec fn rust_type_args(tokens: Seq<Token>, pos: int) -> Outcome<Span>
    decreases left(tokens, pos), 1nat,
{
    if !punct_at(tokens, pos, '<') {
        failure(pos, Expected::Punct('<'))
    } else {
        expected(
            match rust_type_list(tokens, pos + 1) {
                Err(f) => Err(f),
                Ok(l) => if punct_at(tokens, l.next, '>') {
                    success(run(pos, l.next + 1), l.next + 1)
                } else {
                    failure(l.next, Expected::Punct('>'))
                },
            },
        )
    }
}

/// Matches a list of types with `,` between them. Gives all of its tokens.
pub open spec fn rust_type_list(tokens: Seq<Token>, pos: int) -> Outcome<Span>
    decreases left(tokens, pos), 3nat,
{
    match rust_type(tokens, pos) {
        Err(f) => Err(f),
        Ok(first) => if advances(tokens, pos, first.next) {
            let end = list_end(tokens, first.next);
            success(run(pos, end), end)
        } else {
            success(run(pos, first.next), first.next)
        },
    }
}

/// Where a list of types that has matched up to `pos` ends: behind the last
/// `,` and type that follow each other from `pos` on.
pub open spec fn list_end(tokens: Seq<Token>, pos: int) -> int
    decreases left(tokens, pos), 4nat,
{
    if punct_at(tokens, pos, ',') {
        match rust_type(tokens, pos + 1) {
            Ok(t) => if t.next > pos {
                list_end(tokens, t.next)
            } else {
                pos
            },
            Err(_) => pos,
        }
    } else {
        pos
    }
}

/// Matches a property: a path, which may stand behind an `@`, then `=` and
/// an expression. After the `=` a failure is fatal. The last identifier of
/// the path is the property's name.
pub open spec fn property_attr(tokens: Seq<Token>, pos: int) -> Outcome<Attribute> {
    let qualified = punct_at(tokens, pos, '@');
    let start = if qualified {
        pos + 1
    } else {
        pos
    };
    match rust_type_path(tokens, start) {
        Err(f) => Err(f),
        Ok(path) => if !punct_at(tokens, path.next, '=') {
            failure(path.next, Expected::Punct('='))
        } else {
            match expected(rust_expr(tokens, path.next + 1)) {
                Err(f) => Err(f),
                Ok(value) => success(
                    Attribute::Property {
                        child: !qualified && path.value.end - path.value.start > 1,
                        parent: run(path.value.start as int, path.value.end - 1),
                        name: (path.value.end - 1) as usize,
                        value: value.value,
                    },
                    value.next,
                ),
            }
        },
    }
}

/// Matches a handler: `on`, the name of a signal, `=` and a closure. After
/// the `on` a failure is fatal.
pub open spec fn handler_attr(tokens: Seq<Token>, pos: int) -> Outcome<Attribute> {
    match match_ident(tokens, pos, "on") {
        Err(f) => Err(f),
        Ok(on) => expected(
            match ident(tokens, on.next) {
                Err(f) => Err(f),
                Ok(name) => if !punct_at(tokens, name.next, '=') {
                    failure(name.next, Expected::Punct('='))
                } else {
                    match closure(tokens, name.next + 1) {
                        Err(f) => Err(f),
                        Ok(c) => success(
                            Attribute::Handler {
                                name: name.value,
                                async_keyword: c.value.0,
                                args: c.value.1.0,
                                body: c.value.1.1,
                            },
                            c.next,
                        ),
                    }
                },
            },
        ),
    }
}

/// Matches an attribute: a handler or a property.
pub open spec fn attribute(tokens: Seq<Token>, pos: int) -> Outcome<Attribute> {
    either(handler_attr(tokens, pos), property_attr(tokens, pos))
}

/// Matches attributes one after the other, as many as there are. This does
/// not fail.
pub open spec fn attributes(tokens: Seq<Token>, pos: int) -> Match<Seq<Attribute>>
    decreases left(tokens, pos),
{
    match attribute(tokens, pos) {
        Ok(a) => if advances(tokens, pos, a.next) {
            let rest = attributes(tokens, a.next);
            Match { value: seq![a.value] + rest.value, next: rest.next }
        } else {
            Match { value: Seq::empty(), next: pos }
        },
        Err(_) => Match { value: Seq::empty(), next: pos },
    }
}

/// Matches properties one after the other, as many as there are. This does
/// not fail.
pub open spec fn properties(tokens: Seq<Token>, pos: int) -> Match<Seq<Attribute>>
    decreases left(tokens, pos),
{
    match property_attr(tokens, pos) {
        Ok(a) => if advances(tokens, pos, a.next) {
            let rest = properties(tokens, a.next);
            Match { value: seq![a.value] + rest.value, next: rest.next }
        } else {
            Match { value: Seq::empty(), next: pos }
        },
        Err(_) => Match { value: Seq::empty(), next: pos },
    }
}

/// Whether the tokens at the two indices are identifiers of one text.
pub open spec fn same_name(tokens: Seq<Token>, a: int, b: int) -> bool {
    &&& 0 <= a < tokens.len()
    &&& 0 <= b < tokens.len()
    &&& tokens[a] matches Token::Ident(x)
    &&& tokens[b] matches Token::Ident(y)
    &&& x@ == y@
}

/// Matches the end tag of the tag whose name is the token at `opened`:
/// `</`, that name, `>`. After the `</` a failure is fatal. Gives the index
/// of the name in the end tag.
pub open spec fn end_tag(tokens: Seq<Token>, pos: int, opened: usize) -> Outcome<usize> {
    if !punct_at(tokens, pos, '<') {
        failure(pos, Expected::Punct('<'))
    } else if !punct_at(tokens, pos + 1, '/') {
        failure(pos + 1, Expected::Punct('/'))
    } else {
        expected(
            if !ident_at(tokens, pos + 2) {
                failure(pos + 2, Expected::Identifier)
            } else if !same_name(tokens, pos + 2, opened as int) {
                Err(
                    Failure {
                        position: pos + 2,
                        expected: seq![Expected::TagName(opened)],
                        description: Some(Description::UnexpectedEndTag),
                        fatal: false,
                    },
                )
            } else if !punct_at(tokens, pos + 3, '>') {
                failure(pos + 3, Expected::Punct('>'))
            } else {
                success((pos + 2) as usize, pos + 4)
            },
        )
    }
}

/// Matches the name of a widget and, if one follows, a constructor call:
/// `::`, an identifier and a group in round brackets. Gives the index of the
/// name and the tokens of the call.
pub open spec fn widget_constructor(tokens: Seq<Token>, pos: int) -> Outcome<(usize, Option<Span>)> {
    if !ident_at(tokens, pos) {
        failure(pos, Expected::Identifier)
    } else if punct_at(tokens, pos + 1, ':') && punct_at(tokens, pos + 2, ':') && ident_at(
        tokens,
        pos + 3,
    ) && 0 <= pos + 4 < tokens.len() && tokens[pos + 4].is_paren_group() {
        success((pos as usize, Some(run(pos + 1, pos + 5))), pos + 5)
    } else {
        success((pos as usize, None), pos + 1)
    }
}

/// Attributes end where they began or later.
pub proof fn lemma_attributes_next(tokens: Seq<Token>, pos: int)
    ensures
        pos <= attributes(tokens, pos).next,
        pos <= properties(tokens, pos).next,
    decreases left(tokens, pos),
{
    match attribute(tokens, pos) {
        Ok(a) => if advances(tokens, pos, a.next) {
            lemma_attributes_next(tokens, a.next);
        },
        Err(_) => {},
    }
    match property_attr(tokens, pos) {
        Ok(a) => if advances(tokens, pos, a.next) {
            lemma_attributes_next(tokens, a.next);
        },
        Err(_) => {},
    }
}

/// Matches a component tag: `<@`, a type, properties, `/>`. After the `<@`
/// a failure is fatal until the properties end, and again after the `/`.
pub open spec fn component(tokens: Seq<Token>, pos: int) -> Outcome<Markup> {
    if !punct_at(tokens, pos, '<') {
        failure(pos, Expected::Punct('<'))
    } else if !punct_at(tokens, pos + 1, '@') {
        failure(pos + 1, Expected::Punct('@'))
    } else {
        match expected(rust_type(tokens, pos + 2)) {
            Err(f) => Err(f),
            Ok(name) => {
                let props = properties(tokens, name.next);
                if !punct_at(tokens, props.next, '/') {
                    failure(props.next, Expected::Punct('/'))
                } else if !punct_at(tokens, props.next + 1, '>') {
                    expected(failure(props.next + 1, Expected::Punct('>')))
                } else {
                    success(
                        Markup::Component { name: name.value, attributes: props.value },
                        props.next + 2,
                    )
                }
            },
        }
    }
}

/// Matches an element: a component tag, a widget tag with all that it
/// holds, or a group of tokens.
pub open spec fn element(tokens: Seq<Token>, pos: int) -> Outcome<Markup>
    decreases left(tokens, pos), 2nat,
{
    either(
        either(component(tokens, pos), widget(tokens, pos)),
        match group(tokens, pos) {
            Err(f) => Err(f),
            Ok(g) => success(Markup::Block(g.value), g.next),
        },
    )
}

/// Matches a widget tag: `<`, a name with or without a constructor call,
/// and attributes; then either `/>`, or `>`, the elements that the widget
/// holds, and the end tag of the same name. After the `<` a failure is fatal
/// until the attributes end, and again after the `/`.
pub open spec fn widget(tokens: Seq<Token>, pos: int) -> Outcome<Markup>
    decreases left(tokens, pos), 1nat,
{
    if !punct_at(tokens, pos, '<') {
        failure(pos, Expected::Punct('<'))
    } else {
        match expected(widget_constructor(tokens, pos + 1)) {
            Err(f) => Err(f),
            Ok(head) => {
                let attrs = attributes(tokens, head.next);
                let at = attrs.next;
                either(
                    if !punct_at(tokens, at, '/') {
                        failure(at, Expected::Punct('/'))
                    } else if !punct_at(tokens, at + 1, '>') {
                        expected(failure(at + 1, Expected::Punct('>')))
                    } else {
                        success(
                            Markup::Widget {
                                name: head.value.0,
                                constructor: head.value.1,
                                attributes: attrs.value,
                                children: Seq::empty(),
                            },
                            at + 2,
                        )
                    },
                    if !punct_at(tokens, at, '>') {
                        failure(at, Expected::Punct('>'))
                    } else {
                        proof {
                            lemma_attributes_next(tokens, head.next);
                        }
                        let kids = elements(tokens, at + 1);
                        match end_tag(tokens, kids.next, head.value.0) {
                            Err(f) => Err(f),
                            Ok(end) => success(
                                Markup::Widget {
                                    name: head.value.0,
                                    constructor: head.value.1,
                                    attributes: attrs.value,
                                    children: kids.value,
                                },
                                end.next,
                            ),
                        }
                    },
                )
            },
        }
    }
}

/// Matches elements one after the other, as many as there are. This does
/// not fail.
pub open spec fn elements(tokens: Seq<Token>, pos: int) -> Match<Seq<Markup>>
    decreases left(tokens, pos), 3nat,
{
    match element(tokens, pos) {
        Ok(e) => if advances(tokens, pos, e.next) {
            let rest = elements(tokens, e.next);
            Match { value: seq![e.value] + rest.value, next: rest.next }
        } else {
            Match { value: Seq::empty(), next: pos }
        },
        Err(_) => Match { value: Seq::empty(), next: pos },
    }
}

} // verus!
