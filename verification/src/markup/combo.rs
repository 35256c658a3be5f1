//! What a parser returns, and how the results of parsers combine.

use vstd::prelude::*;

verus! {

/// What a parser that failed had expected to find.
#[derive(Clone, Copy, Debug, PartialEq, Eq)]
pub enum Expected {
    /// An identifier.
    Identifier,
    /// A literal.
    Literal,
    /// A group of tokens in brackets of any kind.
    CodeBlock,
    /// A group of tokens in round brackets.
    ParenBlock,
    /// This punctuation mark.
    Punct(char),
    /// Any token but this punctuation mark.
    NotPunct(char),
    /// Any token but this punctuation mark, where the input ended.
    NotPunctOrEnd(char),
    /// This identifier.
    Word(&'static str),
    /// The name that the tag was opened with: the identifier at this index.
    TagName(usize),
}

impl Expected {
    /// Whether the two expect the same thing.
    pub open spec fn same(self, other: Expected) -> bool {
        match (self, other) {
            (Expected::Word(a), Expected::Word(b)) => a@ == b@,
            _ => self == other,
        }
    }

    /// Whether the two expect the same thing.
    pub fn is_same(&self, other: &Expected) -> (b: bool)
        ensures
            b == self.same(*other),
    {
        match (self, other) {
            (Expected::Identifier, Expected::Identifier) => true,
            (Expected::Literal, Expected::Literal) => true,
            (Expected::CodeBlock, Expected::CodeBlock) => true,
            (Expected::ParenBlock, Expected::ParenBlock) => true,
            (Expected::Punct(a), Expected::Punct(b)) => *a == *b,
            (Expected::NotPunct(a), Expected::NotPunct(b)) => *a == *b,
            (Expected::NotPunctOrEnd(a), Expected::NotPunctOrEnd(b)) => *a == *b,
            (Expected::Word(a), Expected::Word(b)) => {
                let x: String = (*a).to_owned();
                let y: String = (*b).to_owned();
                x == y
            },
            (Expected::TagName(a), Expected::TagName(b)) => *a == *b,
            _ => false,
        }
    }
}

/// Whether the list holds an expectation of the same thing.
pub open spec fn names(list: Seq<Expected>, e: Expected) -> bool {
    exists|i: int| 0 <= i < list.len() && (#[trigger] list[i]).same(e)
}

/// The list, followed by those of the first `n` of `more` that expect what
/// nothing before them expects.
pub open spec fn joined(list: Seq<Expected>, more: Seq<Expected>, n: nat) -> Seq<Expected>
    decreases n,
{
    if n == 0 || n > more.len() {
        list
    } else {
        let before = joined(list, more, (n - 1) as nat);
        if names(before, more[n - 1]) {
            before
        } else {
            before.push(more[n - 1])
        }
    }
}

/// Whether the list holds an expectation of the same thing.
pub fn is_named(list: &Vec<Expected>, e: &Expected) -> (b: bool)
    ensures
        b == names(list@, *e),
{
    let mut i: usize = 0;
    while i < list.len()
        invariant
            i <= list@.len(),
            forall|j: int| 0 <= j < i ==> !(#[trigger] list@[j]).same(*e),
        decreases list@.len() - i,
    {
        if list[i].is_same(e) {
            return true;
        }
        i = i + 1;
    }
    false
}

/// What went wrong, where more can be said than what was expected.
#[derive(Clone, Copy, Debug, PartialEq, Eq, Structural)]
pub enum Description {
    /// A tag is closed under another name than it was opened with.
    UnexpectedEndTag,
}

impl Description {
    /// The description in words.
    pub open spec fn text(self) -> Seq<char> {
        match self {
            Description::UnexpectedEndTag => "unexpected end tag"@,
        }
    }

    /// The description in words.
    pub fn message(&self) -> (text: &'static str)
        ensures
            text@ == self.text(),
    {
        match self {
            Description::UnexpectedEndTag => "unexpected end tag",
        }
    }
}

/// A parser's success: what it made of the tokens that it matched, and the
/// position after them.
#[derive(Clone, Copy, Debug, PartialEq, Eq)]
pub struct Success<A> {
    pub value: A,
    pub next: usize,
}

/// A parser's failure: the position at which it failed, what it had expected
/// there, and whether the failure is fatal. A choice between two parsers
/// tries the second only after a failure of the first that is not fatal.
#[derive(Clone, Debug, PartialEq, Eq)]
pub struct Error {
    pub position: usize,
    pub expected: Vec<Expected>,
    pub description: Option<Description>,
    pub fatal: bool,
}

/// What an [`Error`] stands for.
pub struct Failure {
    pub position: int,
    pub expected: Seq<Expected>,
    pub description: Option<Description>,
    pub fatal: bool,
}

impl View for Error {
    type V = Failure;

    open spec fn view(&self) -> Failure {
        Failure {
            position: self.position as int,
            expected: self.expected@,
            description: self.description,
            fatal: self.fatal,
        }
    }
}

/// What a [`Success`] stands for.
pub struct Match<A> {
    pub value: A,
    pub next: int,
}

/// What a parser's result stands for.
pub type Outcome<A> = Result<Match<A>, Failure>;

/// What a parser returns.
pub type ParseResult<A> = Result<Success<A>, Error>;

/// Whether the result is the outcome.
pub open spec fn models<A>(r: ParseResult<A>, s: Outcome<A>) -> bool {
    match (r, s) {
        (Ok(a), Ok(b)) => a.value == b.value && a.next == b.next,
        (Err(e), Err(f)) => e@ == f,
        _ => false,
    }
}

/// The success with the given value and next position.
pub open spec fn success<A>(value: A, next: int) -> Outcome<A> {
    Ok(Match { value, next })
}

/// The failure at `pos` that expected one thing and is not fatal.
pub open spec fn failure<A>(pos: int, expected: Expected) -> Outcome<A> {
    Err(Failure { position: pos, expected: seq![expected], description: None, fatal: false })
}

impl Failure {
    /// The same failure, fatal.
    pub open spec fn fatal(self) -> Failure {
        Failure { fatal: true, ..self }
    }

    /// The failure of a choice both of whose parsers failed, with `self` and
    /// `other`: the one that came further, or, for two at one position, one
    /// that expected what either expected.
    pub open spec fn merged(self, other: Failure) -> Failure {
        if self.position > other.position {
            self
        } else if other.position > self.position {
            other
        } else {
            Failure {
                position: self.position,
                expected: joined(self.expected, other.expected, other.expected.len()),
                description: if self.description is Some {
                    self.description
                } else {
                    other.description
                },
                fatal: false,
            }
        }
    }
}

/// The outcome with every failure fatal.
pub open spec fn expected<A>(s: Outcome<A>) -> Outcome<A> {
    match s {
        Ok(_) => s,
        Err(f) => Err(f.fatal()),
    }
}

/// The outcome of a choice between two parsers with these outcomes: that of
/// the first if it succeeded or failed fatally, else that of the second if
/// it succeeded or failed fatally, else the two failures merged.
pub open spec fn either<A>(first: Outcome<A>, second: Outcome<A>) -> Outcome<A> {
    match first {
        Ok(_) => first,
        Err(f) => if f.fatal {
            first
        } else {
            match second {
                Ok(_) => second,
                Err(g) => if g.fatal {
                    second
                } else {
                    Err(f.merged(g))
                },
            }
        },
    }
}

/// Succeeds with a value, at the next position.
pub fn ok<A>(value: A, next: usize) -> (r: ParseResult<A>)
    ensures
        r == Ok::<Success<A>, Error>(Success { value, next }),
{
    Ok(Success { value, next })
}

/// Fails at `pos`, having expected one thing. The failure is not fatal.
pub fn err<A>(pos: usize, expected: Expected) -> (r: ParseResult<A>)
    ensures
        models(r, failure(pos as int, expected)),
{
    let mut list: Vec<Expected> = Vec::new();
    list.push(expected);
    assert(list@ =~= seq![expected]);
    Err(Error { position: pos, expected: list, description: None, fatal: false })
}

impl Error {
    /// The failure at `pos` that expected one thing and is not fatal.
    pub fn new(pos: usize, expected: Expected) -> (e: Error)
        ensures
            e@ == (Failure {
                position: pos as int,
                expected: seq![expected],
                description: None,
                fatal: false,
            }),
    {
        let mut list: Vec<Expected> = Vec::new();
        list.push(expected);
        assert(list@ =~= seq![expected]);
        Error { position: pos, expected: list, description: None, fatal: false }
    }

    /// Makes the failure fatal.
    pub fn into_fatal(self) -> (e: Error)
        ensures
            e@ == self@.fatal(),
    {
        Error {
            position: self.position,
            expected: self.expected,
            description: self.description,
            fatal: true,
        }
    }

    /// Merges two failures of one choice.
    pub fn merge(self, other: Error) -> (e: Error)
        ensures
            e@ == self@.merged(other@),
    {
        if self.position > other.position {
            self
        } else if other.position > self.position {
            other
        } else {
            let mut expected = self.expected;
            let ghost first = expected@;
            let mut i: usize = 0;
            while i < other.expected.len()
                invariant
                    i <= other.expected@.len(),
                    expected@ == joined(first, other.expected@, i as nat),
                decreases other.expected@.len() - i,
            {
                let e: Expected = other.expected[i];
                if !is_named(&expected, &e) {
                    expected.push(e);
                }
                i = i + 1;
            }
            let description = match self.description {
                Some(d) => Some(d),
                None => other.description,
            };
            Error { position: self.position, expected, description, fatal: false }
        }
    }
}

/// Makes a failure fatal, and leaves a success as it is.
pub fn expect<A>(r: ParseResult<A>) -> (out: ParseResult<A>)
    ensures
        r matches Ok(a) ==> out == Ok::<Success<A>, Error>(a),
        r matches Err(e) ==> out matches Err(g) && g@ == e@.fatal(),
{
    match r {
        Ok(a) => Ok(a),
        Err(e) => Err(e.into_fatal()),
    }
}

/// The result of a choice whose first parser failed with `first`, not
/// fatally, and whose second parser returned `second`.
pub fn or<A>(first: Error, second: ParseResult<A>) -> (out: ParseResult<A>)
    requires
        !first.fatal,
    ensures
        second matches Ok(a) ==> out == Ok::<Success<A>, Error>(a),
        second matches Err(g) ==> out matches Err(m) && m@ == (if g.fatal {
            g@
        } else {
            first@.merged(g@)
        }),
{
    match second {
        Ok(a) => Ok(a),
        Err(g) => if g.fatal {
            Err(g)
        } else {
            Err(first.merge(g))
        },
    }
}

/// Whether the result holds what the outcome names: the same failure, or a
/// success at the same position with a value that stands for the outcome's.
pub open spec fn depicts<A: View>(r: ParseResult<A>, s: Outcome<A::V>) -> bool {
    match (r, s) {
        (Ok(a), Ok(b)) => a.value@ == b.value && a.next == b.next,
        (Err(e), Err(f)) => e@ == f,
        _ => false,
    }
}

} // verus!
