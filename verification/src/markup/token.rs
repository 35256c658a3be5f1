//! Tokens, as far as the tag syntax looks at them.

use vstd::prelude::*;

verus! {

/// Bracket kind of a delimited group of tokens.
#[derive(Clone, Copy, Debug, PartialEq, Eq, Structural)]
pub enum Delimiter {
    Parenthesis,
    Brace,
    Bracket,
    NoDelim,
}

/// A token of the source, as far as the tag syntax looks at it: the text of
/// an identifier, the character of a punctuation mark, and the brackets of a
/// delimited group. What a literal says and what a group holds is for
/// whoever reads the tokens that a parser points at.
#[derive(Clone, Debug, PartialEq, Eq)]
pub enum Token {
    Ident(String),
    Literal,
    Punct(char),
    Group(Delimiter),
}

/// A run of tokens: those at the indices `start..end`.
#[derive(Clone, Copy, Debug, PartialEq, Eq, Structural)]
pub struct Span {
    pub start: usize,
    pub end: usize,
}

impl Token {
    /// Whether the token is an identifier.
    pub open spec fn is_ident(self) -> bool {
        self is Ident
    }

    /// Whether the token is the identifier `name`.
    pub open spec fn is_word(self, name: Seq<char>) -> bool {
        self matches Token::Ident(s) && s@ == name
    }

    /// Whether the token is the punctuation mark `c`.
    pub open spec fn is_punct(self, c: char) -> bool {
        self matches Token::Punct(p) && p == c
    }

    /// Whether the token is a group in round brackets.
    pub open spec fn is_paren_group(self) -> bool {
        self matches Token::Group(d) && d == Delimiter::Parenthesis
    }
}

/// Whether there is a token at `pos` and it is the punctuation mark `c`.
pub open spec fn punct_at(tokens: Seq<Token>, pos: int, c: char) -> bool {
    0 <= pos < tokens.len() && tokens[pos].is_punct(c)
}

/// Whether there is a token at `pos` and it is an identifier.
pub open spec fn ident_at(tokens: Seq<Token>, pos: int) -> bool {
    0 <= pos < tokens.len() && tokens[pos].is_ident()
}

/// Whether there is a token at `pos` and it is the punctuation mark `c`.
pub fn is_punct_at(input: &Vec<Token>, pos: usize, c: char) -> (b: bool)
    ensures
        b == punct_at(input@, pos as int, c),
        b ==> pos < usize::MAX,
{
    if pos < input.len() {
        match &input[pos] {
            Token::Punct(p) => *p == c,
            _ => false,
        }
    } else {
        false
    }
}

/// Whether there is a token at `pos` and it is an identifier.
pub fn is_ident_at(input: &Vec<Token>, pos: usize) -> (b: bool)
    ensures
        b == ident_at(input@, pos as int),
        b ==> pos < usize::MAX,
{
    if pos < input.len() {
        match &input[pos] {
            Token::Ident(_) => true,
            _ => false,
        }
    } else {
        false
    }
}

} // verus!
