//! Source positions, spans, located symbols and located errors.
use vstd::prelude::*;

verus! {

/// A position in a source text: line and column (both from 0).
#[derive(Debug, Clone, Copy, PartialEq, Eq, Structural)]
pub struct Pos {
    pub line: u32,
    pub column: u32,
}

/// A range of positions (both ends included).
#[derive(Debug, Clone, Copy, PartialEq, Eq, Structural)]
pub struct Span {
    pub start: Pos,
    pub end: Pos,
}

impl Span {
    /// The span from `start` to `end`.
    pub fn new(start: Pos, end: Pos) -> (res: Span)
        ensures
            res == (Span { start, end }),
    {
        Span { start, end }
    }

    /// The span made of a single position.
    pub fn point(p: Pos) -> (res: Span)
        ensures
            res == (Span { start: p, end: p }),
    {
        Span { start: p, end: p }
    }
}

/// Location of a piece of source text.
#[derive(Debug, Clone, Copy, PartialEq, Eq, Structural)]
pub struct Loc {
    pub span: Span,
}

impl Loc {
    pub fn new(span: Span) -> (res: Loc)
        ensures
            res.span == span,
    {
        Loc { span }
    }

    /// The location of the last position of this one.
    pub fn end(&self) -> (res: Loc)
        ensures
            res.span == Span::spec_point(self.span.end),
    {
        Loc { span: Span::point(self.span.end) }
    }

    /// An error located here.
    pub fn invalid(&self, error: String) -> (res: ErrLoc)
        ensures
            res@ == err_at(error@, Some(*self)),
    {
        ErrLoc::new(error, Some(*self))
    }
}

impl Span {
    pub open spec fn spec_point(p: Pos) -> Span {
        Span { start: p, end: p }
    }
}

/// An error message with the location it is about, and the contexts it was raised in
/// (innermost first).
#[derive(Debug, Clone)]
pub struct ErrLoc {
    pub msg: String,
    pub loc: Option<Loc>,
    pub context: Vec<String>,
}

/// Mathematical value of an error: its message, location and contexts.
pub type ErrV = (Seq<char>, Option<Loc>, Seq<Seq<char>>);

impl View for ErrLoc {
    type V = ErrV;

    open spec fn view(&self) -> ErrV {
        (self.msg@, self.loc, self.context@.map_values(|c: String| c@))
    }
}

/// The error with message `msg` at `loc`, without context.
pub open spec fn err_at(msg: Seq<char>, loc: Option<Loc>) -> ErrV {
    (msg, loc, seq![])
}

/// The error `e` within the context `c`.
pub open spec fn err_ctx(e: ErrV, c: Seq<char>) -> ErrV {
    (e.0, e.1, e.2.push(c))
}

impl ErrLoc {
    /// The error with message `msg` at `loc`, without context.
    pub fn new(msg: String, loc: Option<Loc>) -> (res: ErrLoc)
        ensures
            res@ == err_at(msg@, loc),
    {
        let res = ErrLoc { msg, loc, context: Vec::new() };
        assert(res.context@.map_values(|c: String| c@) =~= Seq::<Seq<char>>::empty());
        res
    }

    /// Adds a context to the error.
    pub fn ctx(self, c: String) -> (res: ErrLoc)
        ensures
            res@ == err_ctx(self@, c@),
    {
        let mut context = self.context;
        let ghost before = context@;
        context.push(c);
        assert(context@.map_values(|c: String| c@) =~= before.map_values(|c: String| c@).push(c@));
        ErrLoc { msg: self.msg, loc: self.loc, context }
    }
}

/// Whether every character of a text is ASCII.
pub open spec fn ascii_text(s: Seq<char>) -> bool {
    forall|i: int| 0 <= i < s.len() ==> (#[trigger] s[i] as u32) < 128
}

/// The ASCII lower case of a character (others are unchanged).
pub open spec fn ascii_lower(c: char) -> char {
    if 'A' <= c && c <= 'Z' {
        ((c as u32) + 32) as char
    } else {
        c
    }
}

/// The ASCII lower case of a text.
pub open spec fn ascii_lower_text(s: Seq<char>) -> Seq<char> {
    s.map_values(|c: char| ascii_lower(c))
}

/// The characters of a string.
pub fn str_chars(s: &str) -> (res: Vec<char>)
    ensures
        res@ == s@,
{
    broadcast use vstd::string::axiom_spec_iter;

    let mut res: Vec<char> = Vec::new();
    for c in it: s.chars()
        invariant
            it.seq() == s@,
            res@ == s@.take(it.index() as int),
    {
        res.push(c);
        proof {
            assert(s@.take(it.index() + 1) =~= s@.take(it.index() as int).push(c));
        }
    }
    proof {
        assert(s@.take(s@.len() as int) =~= s@);
    }
    res
}

/// Calls `String::push`; the contract claims what its documentation says: the characters of
/// the string are afterwards those it had, followed by `c`.
#[verifier::external_body]
fn push_char(s: &mut String, c: char)
    ensures
        final(s)@ == old(s)@.push(c),
{
    s.push(c)
}

/// A string made of the given characters.
pub fn string_of_chars(v: &[char]) -> (res: String)
    ensures
        res@ == v@,
{
    let mut res = String::new();
    let mut i: usize = 0;
    while i < v.len()
        invariant
            i <= v@.len(),
            res@ == v@.take(i as int),
        decreases v@.len() - i,
    {
        push_char(&mut res, v[i]);
        proof {
            assert(v@.take(i + 1) =~= v@.take(i as int).push(v@[i as int]));
        }
        i = i + 1;
    }
    proof {
        assert(v@.take(v@.len() as int) =~= v@);
    }
    res
}

/// A string with the content of a literal.
pub fn string_of(s: &str) -> (res: String)
    ensures
        res@ == s@,
{
    String::from_str(s)
}

/// A source text, as a sequence of characters.
pub struct Input {
    pub text: Vec<char>,
}

impl Input {
    /// The input made of the characters of `s`.
    pub fn from_str(s: &str) -> (res: Input)
        ensures
            res.text@ == s@,
    {
        Input { text: str_chars(s) }
    }
}

} // verus!
