//! S-expressions: tokenizer, reader and printer.
use vstd::prelude::*;
use crate::input::{Pos, Span, Loc, ErrLoc, ErrV, Input, err_at, ascii_text, ascii_lower, ascii_lower_text, string_of, string_of_chars};

verus! {

/// A lexical token of an s-expression text.
#[derive(Debug, Clone, Copy, PartialEq, Eq, Structural)]
pub enum Token {
    /// A symbol spanning the characters `start..=end` of the text.
    Sym { start: usize, end: usize, start_pos: Pos },
    LParen(Pos),
    RParen(Pos),
    Quote(Pos),
    QuasiQuote(Pos),
    Unquote(Pos),
}

/// Whitespace, in the sense of `char::is_whitespace`, restricted to ASCII.
pub open spec fn is_ws(c: char) -> bool {
    c == ' ' || c == '\t' || c == '\n' || c == '\x0B' || c == '\x0C' || c == '\r'
}

/// Characters that end a symbol.
pub open spec fn is_delim(c: char) -> bool {
    is_ws(c) || c == '(' || c == ')' || c == ';' || c == '\'' || c == '`' || c == ','
}

/// State of the tokenizer after reading a prefix of the text.
pub struct TokState {
    pub index: int,
    pub cur_start: Option<int>,
    pub line: int,
    pub line_start: int,
    pub in_comment: bool,
    pub tokens: Seq<Token>,
}

pub open spec fn make_sym(start: int, end: int, line: int, line_start: int) -> Token {
    Token::Sym {
        start: start as usize,
        end: end as usize,
        start_pos: Pos { line: line as u32, column: (start - line_start) as u32 },
    }
}

/// The single-character token for `n` at position `pos`, if `n` is one.
pub open spec fn punct_token(n: char, pos: Pos) -> Option<Token> {
    if n == '(' {
        Some(Token::LParen(pos))
    } else if n == ')' {
        Some(Token::RParen(pos))
    } else if n == '\'' {
        Some(Token::Quote(pos))
    } else if n == '`' {
        Some(Token::QuasiQuote(pos))
    } else if n == ',' {
        Some(Token::Unquote(pos))
    } else {
        None
    }
}

/// One step of the tokenizer, on the character `n`.
pub open spec fn tok_step(st: TokState, n: char) -> TokState {
    let next_index = st.index + 1;
    if is_delim(n) || st.in_comment {
        // a symbol being read ends here
        let tokens = match st.cur_start {
            Some(start) => st.tokens.push(make_sym(start, st.index - 1, st.line, st.line_start)),
            None => st.tokens,
        };
        if n == '\n' {
            TokState {
                index: next_index,
                cur_start: None,
                line: st.line + 1,
                line_start: st.index + 1,
                in_comment: false,
                tokens,
            }
        } else if n == ';' {
            TokState { index: next_index, cur_start: None, in_comment: true, tokens, ..st }
        } else if !st.in_comment {
            let pos = Pos { line: st.line as u32, column: (st.index - st.line_start) as u32 };
            let tokens = match punct_token(n, pos) {
                Some(t) => tokens.push(t),
                None => tokens,
            };
            TokState { index: next_index, cur_start: None, tokens, ..st }
        } else {
            TokState { index: next_index, cur_start: None, tokens, ..st }
        }
    } else if st.cur_start is None {
        TokState { index: next_index, cur_start: Some(st.index), ..st }
    } else {
        TokState { index: next_index, ..st }
    }
}

pub open spec fn tok_init() -> TokState {
    TokState { index: 0, cur_start: None, line: 0, line_start: 0, in_comment: false, tokens: seq![] }
}

/// State of the tokenizer after reading all of `s`.
pub open spec fn tok_run(s: Seq<char>) -> TokState
    decreases s.len(),
{
    if s.len() == 0 {
        tok_init()
    } else {
        tok_step(tok_run(s.drop_last()), s.last())
    }
}

/// The tokens of a text: those of the run, and the symbol that the end of text closes.
pub open spec fn spec_tokenize(s: Seq<char>) -> Seq<Token> {
    let st = tok_run(s);
    match st.cur_start {
        Some(start) => st.tokens.push(make_sym(start, st.index - 1, st.line, st.line_start)),
        None => st.tokens,
    }
}

/// Every symbol token designates a non-empty range of the text and starts at a column
/// no greater than its index.
pub open spec fn tokens_wf(toks: Seq<Token>, len: int) -> bool {
    forall|k: int|
        0 <= k < toks.len() ==> match #[trigger] toks[k] {
            Token::Sym { start, end, start_pos } => start <= end < len && start_pos.column <= start,
            _ => true,
        }
}

fn is_delim_exec(n: char) -> (b: bool)
    ensures
        b == is_delim(n),
{
    n == ' ' || n == '\t' || n == '\n' || n == '\x0B' || n == '\x0C' || n == '\r' || n == '('
        || n == ')' || n == ';' || n == '\'' || n == '`' || n == ','
}

/// Splits the text into tokens.
pub fn tokenize(text: &Vec<char>) -> (tokens: Vec<Token>)
    requires
        text.len() < u32::MAX,
    ensures
        tokens@ == spec_tokenize(text@),
        tokens_wf(tokens@, text.len() as int),
{
    let mut tokens: Vec<Token> = Vec::new();
    let mut index: usize = 0;
    let mut cur_start: Option<usize> = None;
    let mut line: usize = 0;
    let mut line_start: usize = 0;
    let mut is_in_comment = false;
    while index < text.len()
        invariant
            index <= text.len() < u32::MAX,
            line <= index,
            line_start <= index,
            cur_start matches Some(s) ==> line_start <= s < index,
            tok_run(text@.subrange(0, index as int)) == (TokState {
                index: index as int,
                cur_start: match cur_start {
                    Some(s) => Some(s as int),
                    None => None,
                },
                line: line as int,
                line_start: line_start as int,
                in_comment: is_in_comment,
                tokens: tokens@,
            }),
            tokens_wf(tokens@, index as int),
        decreases text.len() - index,
    {
        let n = text[index];
        proof {
            assert(text@.subrange(0, index + 1).drop_last() =~= text@.subrange(0, index as int));
            assert(text@.subrange(0, index + 1).last() == n);
        }
        if is_delim_exec(n) || is_in_comment {
            if let Some(start) = cur_start {
                let t = Token::Sym {
                    start,
                    end: index - 1,
                    start_pos: Pos { line: line as u32, column: (start - line_start) as u32 },
                };
                tokens.push(t);
                cur_start = None;
            }
            if n == '\n' {
                line = line + 1;
                line_start = index + 1;
                is_in_comment = false;
            } else if n == ';' {
                is_in_comment = true;
            } else if !is_in_comment {
                let pos = Pos { line: line as u32, column: (index - line_start) as u32 };
                if n == '(' {
                    tokens.push(Token::LParen(pos));
                } else if n == ')' {
                    tokens.push(Token::RParen(pos));
                } else if n == '\'' {
                    tokens.push(Token::Quote(pos));
                } else if n == '`' {
                    tokens.push(Token::QuasiQuote(pos));
                } else if n == ',' {
                    tokens.push(Token::Unquote(pos));
                }
            }
        } else if cur_start.is_none() {
            cur_start = Some(index);
        }
        index = index + 1;
    }
    assert(text@.subrange(0, index as int) =~= text@);
    if let Some(start) = cur_start {
        let t = Token::Sym {
            start,
            end: index - 1,
            start_pos: Pos { line: line as u32, column: (start - line_start) as u32 },
        };
        tokens.push(t);
    }
    tokens
}


/// A symbol: its (lower case) text and where it comes from, if it comes from a source.
#[derive(Debug, Clone)]
pub struct Sym {
    pub chars: Vec<char>,
    pub loc: Option<Loc>,
}

pub type SAtom = Sym;

/// Mathematical value of a symbol: its text and location.
pub type SymV = (Seq<char>, Option<Loc>);

impl View for Sym {
    type V = SymV;

    open spec fn view(&self) -> SymV {
        (self.chars@, self.loc)
    }
}

/// A list of s-expressions, with the span from its opening to its closing parenthesis.
#[derive(Debug)]
pub struct SList {
    pub list: Vec<SExpr>,
    pub span: Span,
}

/// An s-expression: an atom or a list.
#[derive(Debug)]
pub enum SExpr {
    Atom(SAtom),
    List(SList),
}

/// Mathematical value of an s-expression.
pub enum SExprV {
    Atom(Seq<char>, Option<Loc>),
    List(Seq<SExprV>, Span),
}

pub open spec fn sexpr_view(e: SExpr) -> SExprV
    decreases e,
{
    match e {
        SExpr::Atom(a) => SExprV::Atom(a.chars@, a.loc),
        SExpr::List(l) => SExprV::List(seq_view(l.list@), l.span),
    }
}

pub open spec fn seq_view(s: Seq<SExpr>) -> Seq<SExprV>
    decreases s,
{
    if s.len() == 0 {
        seq![]
    } else {
        seq_view(s.drop_last()).push(sexpr_view(s.last()))
    }
}

impl View for SExpr {
    type V = SExprV;

    open spec fn view(&self) -> SExprV {
        sexpr_view(*self)
    }
}

/// The view of a sequence has the same length and the view of each element.
pub proof fn lemma_seq_view(s: Seq<SExpr>)
    ensures
        seq_view(s).len() == s.len(),
        forall|i: int| 0 <= i < s.len() ==> #[trigger] seq_view(s)[i] == sexpr_view(s[i]),
    decreases s.len(),
{
    if s.len() > 0 {
        lemma_seq_view(s.drop_last());
    }
}

impl Sym {
    /// A copy of this symbol.
    pub fn copy(&self) -> (res: Sym)
        ensures
            res@ == self@,
    {
        Sym { chars: self.chars.clone(), loc: self.loc }
    }
}

impl SExpr {
    /// A deep copy of this expression.
    pub fn deep_clone(&self) -> (res: SExpr)
        ensures
            res@ == self@,
        decreases self,
    {
        match self {
            SExpr::Atom(a) => SExpr::Atom(a.copy()),
            SExpr::List(l) => {
                let mut v: Vec<SExpr> = Vec::new();
                let mut i: usize = 0;
                while i < l.list.len()
                    invariant
                        i <= l.list.len(),
                        *self == SExpr::List(*l),
                        seq_view(v@) == seq_view(l.list@.subrange(0, i as int)),
                    decreases l.list.len() - i,
                {
                    proof {
                        assert(*self is List);
                        assert((*self)->List_0 == *l);
                        assert(decreases_to!(*self => (*self)->List_0));
                        assert(decreases_to!(*l => l.list));
                        assert(decreases_to!(l.list => l.list@));
                        assert(decreases_to!(l.list@ => l.list@[i as int]));
                        assert(decreases_to!(*self => l.list@[i as int]));
                    }
                    let c = l.list[i].deep_clone();
                    proof {
                        assert(v@.push(c).drop_last() =~= v@);
                        assert(l.list@.subrange(0, i + 1).drop_last() =~= l.list@.subrange(0, i as int));
                    }
                    v.push(c);
                    i = i + 1;
                }
                assert(l.list@.subrange(0, i as int) =~= l.list@);
                SExpr::List(SList { list: v, span: l.span })
            },
        }
    }
}

/// Why reading an s-expression failed.
#[derive(Debug, Clone, Copy, PartialEq, Eq, Structural)]
pub enum ReadError {
    /// A closing parenthesis where an expression was expected.
    ClosingParen,
    /// The tokens ended before the expression did.
    EndOfInput,
}

/// The atom read from the symbol token `start..=end`.
pub open spec fn spec_atom(text: Seq<char>, start: int, end: int, start_pos: Pos) -> SExprV {
    SExprV::Atom(
        ascii_lower_text(text.subrange(start, end + 1)),
        Some(
            Loc {
                span: Span {
                    start: start_pos,
                    end: Pos {
                        line: start_pos.line,
                        column: (start_pos.column + (end - start + 1) - 1) as u32,
                    },
                },
            },
        ),
    )
}

/// `(name e)`, spanning the quoting character only.
pub open spec fn spec_quoted(name: Seq<char>, at: Pos, e: SExprV) -> SExprV {
    SExprV::List(seq![SExprV::Atom(name, None), e], Span { start: at, end: at })
}

/// The expression that starts at token `pos`, and the index of the token after it.
pub open spec fn spec_read(toks: Seq<Token>, text: Seq<char>, pos: int) -> Result<(SExprV, int), ReadError>
    decreases toks.len() - pos, 0int,
{
    if pos < 0 || pos >= toks.len() {
        Err(ReadError::EndOfInput)
    } else {
        match toks[pos] {
            Token::Sym { start, end, start_pos } => Ok(
                (spec_atom(text, start as int, end as int, start_pos), pos + 1),
            ),
            Token::LParen(start) => spec_read_list(toks, text, pos + 1, start, seq![]),
            Token::RParen(_) => Err(ReadError::ClosingParen),
            Token::Quote(at) => match spec_read(toks, text, pos + 1) {
                Ok((e, p)) => Ok((spec_quoted("quote"@, at, e), p)),
                Err(k) => Err(k),
            },
            Token::QuasiQuote(at) => match spec_read(toks, text, pos + 1) {
                Ok((e, p)) => Ok((spec_quoted("quasiquote"@, at, e), p)),
                Err(k) => Err(k),
            },
            Token::Unquote(at) => match spec_read(toks, text, pos + 1) {
                Ok((e, p)) => Ok((spec_quoted("unquote"@, at, e), p)),
                Err(k) => Err(k),
            },
        }
    }
}

/// The rest of a list opened at `start`, whose elements `acc` were read already and whose
/// next element (or closing parenthesis) is token `pos`.
pub open spec fn spec_read_list(
    toks: Seq<Token>,
    text: Seq<char>,
    pos: int,
    start: Pos,
    acc: Seq<SExprV>,
) -> Result<(SExprV, int), ReadError>
    decreases toks.len() - pos, 1int,
{
    if 0 <= pos < toks.len() && toks[pos] is RParen {
        Ok((SExprV::List(acc, Span { start, end: toks[pos]->RParen_0 }), pos + 1))
    } else {
        match spec_read(toks, text, pos) {
            Err(k) => Err(k),
            Ok((e, p)) => if pos < p <= toks.len() {
                spec_read_list(toks, text, p, start, acc.push(e))
            } else {
                Err(ReadError::EndOfInput)
            },
        }
    }
}

fn lower_exec(c: char) -> (r: char)
    ensures
        r == ascii_lower(c),
{
    if 'A' <= c && c <= 'Z' {
        let b: u8 = c as u8;
        let r = (b + 32) as char;
        assert(r == ascii_lower(c)) by {
            assert((c as u32) < 128);
        }
        r
    } else {
        c
    }
}

fn quote_sym(name: &str) -> (res: SExpr)
    ensures
        res@ == SExprV::Atom(name@, None),
{
    SExpr::Atom(Sym { chars: crate::input::str_chars(name), loc: None })
}

/// Reads the expression that starts at token `pos`.
fn read(toks: &Vec<Token>, text: &Vec<char>, pos: usize) -> (res: Result<(SExpr, usize), ReadError>)
    requires
        tokens_wf(toks@, text.len() as int),
        text.len() < u32::MAX,
        pos <= toks.len(),
    ensures
        match res {
            Ok((e, p)) => spec_read(toks@, text@, pos as int) == Ok::<(SExprV, int), ReadError>(
                (e@, p as int),
            ) && pos < p <= toks.len(),
            Err(k) => spec_read(toks@, text@, pos as int) == Err::<(SExprV, int), ReadError>(k),
        },
    decreases toks.len() - pos,
{
    if pos >= toks.len() {
        return Err(ReadError::EndOfInput);
    }
    let tok = toks[pos];
    match tok {
        Token::Sym { start, end, start_pos } => {
            assert(tokens_wf(toks@, text.len() as int) ==> start <= end < text.len());
            let mut s: Vec<char> = Vec::new();
            let mut k = start;
            while k <= end
                invariant
                    start <= k <= end + 1,
                    end < text.len(),
                    s@ =~= ascii_lower_text(text@.subrange(start as int, k as int)),
                decreases end + 1 - k,
            {
                let c = lower_exec(text[k]);
                s.push(c);
                k = k + 1;
            }
            let len = end - start + 1;
            let span = Span {
                start: start_pos,
                end: Pos { line: start_pos.line, column: start_pos.column + (len as u32) - 1 },
            };
            let e = SExpr::Atom(Sym { chars: s, loc: Some(Loc { span }) });
            Ok((e, pos + 1))
        },
        Token::LParen(start) => {
            let mut es: Vec<SExpr> = Vec::new();
            let mut cur = pos + 1;
            loop
                invariant
                    pos < cur <= toks.len(),
                    tokens_wf(toks@, text.len() as int),
                    text.len() < u32::MAX,
                    toks@[pos as int] == Token::LParen(start),
                    spec_read(toks@, text@, pos as int) == spec_read_list(
                        toks@,
                        text@,
                        cur as int,
                        start,
                        seq_view(es@),
                    ),
                decreases toks.len() - cur,
            {
                if cur < toks.len() {
                    if let Token::RParen(end) = toks[cur] {
                        let list = SList { list: es, span: Span { start, end } };
                        return Ok((SExpr::List(list), cur + 1));
                    }
                }
                match read(toks, text, cur) {
                    Err(k) => {
                        return Err(k);
                    },
                    Ok((e, p)) => {
                        proof {
                            assert(es@.push(e).drop_last() =~= es@);
                            assert(es@.push(e).last() == e);
                            assert(seq_view(es@.push(e)) == seq_view(es@).push(e@));
                        }
                        es.push(e);
                        cur = p;
                    },
                }
            }
        },
        Token::RParen(_) => Err(ReadError::ClosingParen),
        Token::Quote(at) => {
            let (e, p) = read(toks, text, pos + 1)?;
            let q = quote_sym("quote");
            let list = SList { list: vec![q, e], span: Span { start: at, end: at } };
            proof {
                reveal_with_fuel(seq_view, 3);
                assert(list.list@.drop_last() =~= seq![q]);
                assert(list.list@.drop_last().drop_last() =~= Seq::<SExpr>::empty());
                assert(seq_view(list.list@) =~= seq![q@, e@]);
            }
            Ok((SExpr::List(list), p))
        },
        Token::QuasiQuote(at) => {
            let (e, p) = read(toks, text, pos + 1)?;
            let q = quote_sym("quasiquote");
            let list = SList { list: vec![q, e], span: Span { start: at, end: at } };
            proof {
                reveal_with_fuel(seq_view, 3);
                assert(list.list@.drop_last() =~= seq![q]);
                assert(list.list@.drop_last().drop_last() =~= Seq::<SExpr>::empty());
                assert(seq_view(list.list@) =~= seq![q@, e@]);
            }
            Ok((SExpr::List(list), p))
        },
        Token::Unquote(at) => {
            let (e, p) = read(toks, text, pos + 1)?;
            let q = quote_sym("unquote");
            let list = SList { list: vec![q, e], span: Span { start: at, end: at } };
            proof {
                reveal_with_fuel(seq_view, 3);
                assert(list.list@.drop_last() =~= seq![q]);
                assert(list.list@.drop_last().drop_last() =~= Seq::<SExpr>::empty());
                assert(seq_view(list.list@) =~= seq![q@, e@]);
            }
            Ok((SExpr::List(list), p))
        },
    }
}


/// Message of a reading error.
pub open spec fn read_error_msg(k: ReadError) -> Seq<char> {
    match k {
        ReadError::ClosingParen => "Unexpected closing parenthesis"@,
        ReadError::EndOfInput => "Unexpected end of output"@,
    }
}

/// What `parse` gives for a text: the first expression of its tokens, or the message of
/// the reading error.
pub open spec fn spec_parse(text: Seq<char>) -> Result<SExprV, Seq<char>> {
    match spec_read(spec_tokenize(text), text, 0) {
        Ok((e, _)) => Ok(e),
        Err(k) => Err(read_error_msg(k)),
    }
}

/// Reads the first s-expression of a text (what follows it is ignored).
pub fn parse_input(input: &Input) -> (res: Result<SExpr, ErrLoc>)
    requires
        input.text.len() < u32::MAX,
        ascii_text(input.text@),
    ensures
        match spec_parse(input.text@) {
            Ok(e) => res matches Ok(r) && r@ == e,
            Err(m) => res matches Err(e) && e@ == err_at(m, None),
        },
{
    let tokens = tokenize(&input.text);
    match read(&tokens, &input.text, 0) {
        Ok((e, _)) => Ok(e),
        Err(k) => {
            let msg = match k {
                ReadError::ClosingParen => string_of("Unexpected closing parenthesis"),
                ReadError::EndOfInput => string_of("Unexpected end of output"),
            };
            Err(ErrLoc::new(msg, None))
        },
    }
}

/// Reads the first s-expression of a string (what follows it is ignored).
pub fn parse(s: &str) -> (res: Result<SExpr, ErrLoc>)
    requires
        s@.len() < u32::MAX,
        ascii_text(s@),
    ensures
        match spec_parse(s@) {
            Ok(e) => res matches Ok(r) && r@ == e,
            Err(m) => res matches Err(e) && e@ == err_at(m, None),
        },
{
    let input = Input::from_str(s);
    parse_input(&input)
}

/// The printed form of an expression: atoms as their text, lists between parentheses with
/// their elements separated by one space.
pub open spec fn display(e: SExprV) -> Seq<char>
    decreases e, 1int,
{
    match e {
        SExprV::Atom(c, _) => c,
        SExprV::List(l, _) => seq!['('] + display_seq(l) + seq![')'],
    }
}

/// The printed forms of a sequence of expressions, separated by one space.
pub open spec fn display_seq(l: Seq<SExprV>) -> Seq<char>
    decreases l, 0int,
{
    if l.len() == 0 {
        seq![]
    } else if l.len() == 1 {
        display(l[0])
    } else {
        display_seq(l.drop_last()) + seq![' '] + display(l.last())
    }
}

impl SExpr {
    /// Appends the printed form of this expression to `out`.
    pub fn write_to(&self, out: &mut Vec<char>)
        ensures
            final(out)@ == old(out)@ + display(self@),
        decreases self,
    {
        match self {
            SExpr::Atom(a) => {
                let mut i: usize = 0;
                while i < a.chars.len()
                    invariant
                        i <= a.chars.len(),
                        out@ == old(out)@ + a.chars@.subrange(0, i as int),
                    decreases a.chars.len() - i,
                {
                    out.push(a.chars[i]);
                    i = i + 1;
                    assert(out@ =~= old(out)@ + a.chars@.subrange(0, i as int));
                }
                assert(a.chars@.subrange(0, i as int) =~= a.chars@);
            },
            SExpr::List(l) => {
                proof {
                    lemma_seq_view(l.list@);
                }
                out.push('(');
                let mut i: usize = 0;
                while i < l.list.len()
                    invariant
                        i <= l.list.len(),
                        *self == SExpr::List(*l),
                        seq_view(l.list@).len() == l.list@.len(),
                        forall|j: int| 0 <= j < l.list@.len() ==> #[trigger] seq_view(l.list@)[j] == sexpr_view(l.list@[j]),
                        out@ == old(out)@ + seq!['('] + display_seq(seq_view(l.list@).subrange(0, i as int)),
                    decreases l.list.len() - i,
                {
                    proof {
                        assert(*self is List);
                        assert((*self)->List_0 == *l);
                        assert(decreases_to!(*self => (*self)->List_0));
                        assert(decreases_to!(*l => l.list));
                        assert(decreases_to!(l.list => l.list@));
                        assert(decreases_to!(l.list@ => l.list@[i as int]));
                    }
                    let ghost before = out@;
                    if i > 0 {
                        out.push(' ');
                    }
                    l.list[i].write_to(out);
                    proof {
                        let vs = seq_view(l.list@);
                        let p = vs.subrange(0, i + 1);
                        assert(p.drop_last() =~= vs.subrange(0, i as int));
                        assert(p.last() == sexpr_view(l.list@[i as int]));
                        if i == 0 {
                            assert(p.len() == 1);
                            assert(display_seq(vs.subrange(0, 0)) =~= Seq::<char>::empty());
                            assert(out@ =~= old(out)@ + seq!['('] + display_seq(p));
                        } else {
                            assert(out@ =~= old(out)@ + seq!['('] + display_seq(p));
                        }
                    }
                    i = i + 1;
                }
                out.push(')');
                proof {
                    assert(seq_view(l.list@).subrange(0, i as int) =~= seq_view(l.list@));
                    assert(out@ =~= old(out)@ + display(self@));
                }
            },
        }
    }

    /// The printed form of this expression.
    pub fn to_string(&self) -> (res: String)
        ensures
            res@ == display(self@),
    {
        let mut out: Vec<char> = Vec::new();
        self.write_to(&mut out);
        assert(out@ =~= display(self@));
        string_of_chars(out.as_slice())
    }
}


/// Whether two character sequences are equal.
pub fn chars_eq(a: &[char], b: &[char]) -> (res: bool)
    ensures
        res == (a@ == b@),
{
    if a.len() != b.len() {
        return false;
    }
    let mut i: usize = 0;
    while i < a.len()
        invariant
            i <= a.len() == b.len(),
            forall|j: int| 0 <= j < i ==> a@[j] == b@[j],
        decreases a.len() - i,
    {
        if a[i] != b[i] {
            return false;
        }
        i = i + 1;
    }
    assert(a@ =~= b@);
    true
}

impl Sym {
    /// A symbol with the given text and no source.
    pub fn new(s: &str) -> (res: Sym)
        ensures
            res.chars@ == s@,
            res.loc is None,
    {
        Sym { chars: crate::input::str_chars(s), loc: None }
    }

    /// Where the symbol comes from.
    pub fn loc(&self) -> (res: Option<Loc>)
        ensures
            res == self.loc,
    {
        self.loc
    }

    /// Whether the symbol's text is `s`.
    pub fn is(&self, s: &str) -> (res: bool)
        ensures
            res == (self.chars@ == s@),
    {
        let c = crate::input::str_chars(s);
        chars_eq(self.chars.as_slice(), c.as_slice())
    }

    /// The text of the symbol.
    pub fn to_string(&self) -> (res: String)
        ensures
            res@ == self.chars@,
    {
        string_of_chars(self.chars.as_slice())
    }

    /// An error located at this symbol.
    pub fn invalid(&self, error: String) -> (res: ErrLoc)
        ensures
            res@ == err_at(error@, self.loc),
    {
        ErrLoc::new(error, self.loc)
    }
}

/// Location of an expression: that of an atom's symbol, or the span of a list.
pub open spec fn spec_loc(e: SExprV) -> Option<Loc> {
    match e {
        SExprV::Atom(_, loc) => loc,
        SExprV::List(_, span) => Some(Loc { span }),
    }
}

impl SList {
    pub open spec fn view(&self) -> Seq<SExprV> {
        seq_view(self.list@)
    }

    /// Iterator over the elements of the list.
    pub fn iter(&self) -> (res: ListIter<'_>)
        ensures
            res.elems@ == self.list@,
            res.span == self.span,
    {
        ListIter { elems: self.list.as_slice(), span: self.span }
    }

    /// Location of the list.
    pub fn loc(&self) -> (res: Loc)
        ensures
            res.span == self.span,
    {
        Loc { span: self.span }
    }

    /// An error located at the list.
    pub fn invalid(&self, error: String) -> (res: ErrLoc)
        ensures
            res@ == err_at(error@, Some(Loc { span: self.span })),
    {
        self.loc().invalid(error)
    }

    /// Number of elements.
    pub fn len(&self) -> (res: usize)
        ensures
            res == self.list@.len(),
    {
        self.list.len()
    }

    /// The element at `index`.
    pub fn get(&self, index: usize) -> (res: &SExpr)
        requires
            index < self.list@.len(),
        ensures
            *res == self.list@[index as int],
    {
        &self.list[index]
    }
}

impl SExpr {
    /// Location of the expression.
    pub fn loc(&self) -> (res: Option<Loc>)
        ensures
            res == spec_loc(self@),
    {
        match self {
            SExpr::Atom(atom) => atom.loc(),
            SExpr::List(list) => Some(list.loc()),
        }
    }

    /// An error located at this expression.
    pub fn invalid(&self, error: String) -> (res: ErrLoc)
        ensures
            res@ == err_at(error@, spec_loc(self@)),
    {
        ErrLoc::new(error, self.loc())
    }

    /// Whether this expression is the atom `expected_atom`.
    pub fn is_atom(&self, expected_atom: &str) -> (res: bool)
        ensures
            res == (self@ matches SExprV::Atom(c, _) && c == expected_atom@),
    {
        match self {
            SExpr::Atom(a) => a.is(expected_atom),
            SExpr::List(_) => false,
        }
    }

    /// If this expression is the application of the function `function_name` (a list whose
    /// head is that atom), the arguments of the application.
    pub fn as_application(&self, function_name: &str) -> (res: Option<&[SExpr]>)
        ensures
            match self {
                SExpr::Atom(_) => res is None,
                SExpr::List(l) => if l.list@.len() > 0 && (l.list@[0] matches SExpr::Atom(h) && h.chars@
                    == function_name@) {
                    res matches Some(r) && r@ == l.list@.drop_first()
                } else {
                    res is None
                },
            },
    {
        match self {
            SExpr::Atom(_) => None,
            SExpr::List(l) => {
                if l.list.len() > 0 {
                    match &l.list[0] {
                        SExpr::Atom(head) => {
                            if head.is(function_name) {
                                let rest = &l.list.as_slice()[1..l.list.len()];
                                assert(rest@ =~= l.list@.drop_first());
                                Some(rest)
                            } else {
                                None
                            }
                        },
                        _ => None,
                    }
                } else {
                    None
                }
            },
        }
    }

    /// The list, if this expression is one.
    pub fn as_list(&self) -> (res: Option<&SList>)
        ensures
            match self {
                SExpr::List(l) => res == Some(l),
                _ => res is None,
            },
    {
        match self {
            SExpr::List(v) => Some(v),
            _ => None,
        }
    }

    /// An iterator over the list, if this expression is one.
    pub fn as_list_iter(&self) -> (res: Option<ListIter<'_>>)
        ensures
            match self {
                SExpr::List(l) => res matches Some(it) && it.elems@ == l.list@ && it.span == l.span,
                _ => res is None,
            },
    {
        match self {
            SExpr::List(v) => Some(v.iter()),
            _ => None,
        }
    }

    /// The atom, if this expression is one.
    pub fn as_atom(&self) -> (res: Option<&SAtom>)
        ensures
            match self {
                SExpr::Atom(a) => res == Some(a),
                _ => res is None,
            },
    {
        match self {
            SExpr::Atom(a) => Some(a),
            _ => None,
        }
    }
}

/// An iterator over the elements of a list, which remembers the list's span.
pub struct ListIter<'a> {
    pub elems: &'a [SExpr],
    pub span: Span,
}

/// The view of a sequence without its first element.
pub proof fn lemma_seq_view_drop_first(s: Seq<SExpr>)
    requires
        s.len() > 0,
    ensures
        seq_view(s.drop_first()) == seq_view(s).drop_first(),
        seq_view(s)[0] == sexpr_view(s[0]),
{
    lemma_seq_view(s);
    lemma_seq_view(s.drop_first());
    assert(seq_view(s.drop_first()) =~= seq_view(s).drop_first());
}

/// What taking the next element from the elements `elems` left in a list that ends at `end`
/// gives.
pub open spec fn pop_v(elems: Seq<SExprV>, end: Pos) -> Result<SExprV, ErrV> {
    if elems.len() == 0 {
        Err(err_at("Unexpected end of list"@, Some(Loc { span: Span::spec_point(end) })))
    } else {
        Ok(elems[0])
    }
}

/// What taking the next element, which must be an atom, gives.
pub open spec fn pop_atom_v(elems: Seq<SExprV>, end: Pos) -> Result<SymV, ErrV> {
    if elems.len() == 0 {
        Err(err_at("Expected an atom but got end of list."@, Some(Loc { span: Span::spec_point(end) })))
    } else {
        match elems[0] {
            SExprV::List(_, span) => Err(err_at("Expected an atom"@, Some(Loc { span }))),
            SExprV::Atom(c, l) => Ok((c, l)),
        }
    }
}

/// What taking the next element, which must be a list, gives: its elements and span.
pub open spec fn pop_list_v(elems: Seq<SExprV>, end: Pos) -> Result<(Seq<SExprV>, Span), ErrV> {
    if elems.len() == 0 {
        Err(err_at("Expected a list but got end of list."@, Some(Loc { span: Span::spec_point(end) })))
    } else {
        match elems[0] {
            SExprV::Atom(_, l) => Err(err_at("Expected a list"@, l)),
            SExprV::List(l, span) => Ok((l, span)),
        }
    }
}

/// What taking the next element, which must be the atom `expected`, gives.
pub open spec fn pop_known_atom_v(elems: Seq<SExprV>, end: Pos, expected: Seq<char>) -> Result<(), ErrV> {
    if elems.len() == 0 {
        Err(err_at("Expected atom "@ + expected + " but got end of list"@, Some(Loc { span: Span::spec_point(end) })))
    } else {
        match elems[0] {
            SExprV::List(_, span) => Err(err_at("Expected atom `"@ + expected + "`"@, Some(Loc { span }))),
            SExprV::Atom(c, l) => if c == expected {
                Ok(())
            } else {
                Err(err_at("Expected the atom `"@ + expected + "`"@, l))
            },
        }
    }
}

impl<'a> ListIter<'a> {
    /// Values of the elements left.
    pub open spec fn rest(&self) -> Seq<SExprV> {
        seq_view(self.elems@)
    }

    /// The next element, without consuming it.
    pub fn peek(&self) -> (res: Option<&'a SExpr>)
        ensures
            if self.elems@.len() == 0 {
                res is None
            } else {
                res == Some(&self.elems@[0])
            },
    {
        if self.elems.len() == 0 {
            None
        } else {
            Some(&self.elems[0])
        }
    }

    /// Consumes and returns the next element.
    pub fn next(&mut self) -> (res: Option<&'a SExpr>)
        ensures
            final(self).span == old(self).span,
            if old(self).elems@.len() == 0 {
                res is None && final(self).elems@ == old(self).elems@
            } else {
                res == Some(&old(self).elems@[0]) && final(self).elems@ == old(self).elems@.drop_first()
            },
    {
        if self.elems.len() == 0 {
            None
        } else {
            let all = self.elems;
            let head = &all[0];
            self.elems = &all[1..all.len()];
            assert(self.elems@ =~= all@.drop_first());
            Some(head)
        }
    }

    /// Consumes and returns the next element; an error at the end of the list if there is none.
    pub fn pop(&mut self) -> (res: Result<&'a SExpr, ErrLoc>)
        ensures
            final(self).span == old(self).span,
            if old(self).elems@.len() == 0 {
                &&& final(self).elems@ == old(self).elems@
                &&& res matches Err(e) && e@ == err_at("Unexpected end of list"@, Some(Loc { span: Span::spec_point(old(self).span.end) }))
            } else {
                res == Ok::<&SExpr, ErrLoc>(&old(self).elems@[0]) && final(self).elems@ == old(
                    self,
                ).elems@.drop_first()
            },
            old(self).elems@.len() > 0 ==> final(self).rest() == old(self).rest().drop_first(),
            match pop_v(old(self).rest(), old(self).span.end) {
                Ok(v) => res matches Ok(r) && r@ == v,
                Err(e) => res matches Err(x) && x@ == e,
            },
    {
        proof {
            if old(self).elems@.len() > 0 {
                lemma_seq_view_drop_first(old(self).elems@);
            }
        }
        match self.next() {
            Some(e) => Ok(e),
            None => Err(self.loc().end().invalid(string_of("Unexpected end of list"))),
        }
    }

    /// Location of the list.
    pub fn loc(&self) -> (res: Loc)
        ensures
            res.span == self.span,
    {
        Loc { span: self.span }
    }

    /// An error located at the list.
    pub fn invalid(&self, error: String) -> (res: ErrLoc)
        ensures
            res@ == err_at(error@, Some(Loc { span: self.span })),
    {
        self.loc().invalid(error)
    }

    /// Number of elements left.
    pub fn len(&self) -> (res: usize)
        ensures
            res == self.elems@.len(),
    {
        self.elems.len()
    }

    /// Whether no element is left.
    pub fn is_empty(&self) -> (res: bool)
        ensures
            res == (self.elems@.len() == 0),
    {
        self.elems.len() == 0
    }

    /// Consumes the next element, which must be the atom `expected`.
    pub fn pop_known_atom(&mut self, expected: &str) -> (res: Result<(), ErrLoc>)
        ensures
            final(self).span == old(self).span,
            if old(self).elems@.len() == 0 {
                &&& final(self).elems@ == old(self).elems@
                &&& res matches Err(e) && e@ == err_at(
                    "Expected atom "@ + expected@ + " but got end of list"@,
                    Some(Loc { span: Span::spec_point(old(self).span.end) }),
                )
            } else {
                &&& final(self).elems@ == old(self).elems@.drop_first()
                &&& match old(self).elems@[0] {
                    SExpr::List(l) => res matches Err(e) && e@ == err_at(
                        "Expected atom `"@ + expected@ + "`"@,
                        Some(Loc { span: l.span }),
                    ),
                    SExpr::Atom(a) => if a.chars@ == expected@ {
                        res is Ok
                    } else {
                        res matches Err(e) && e@ == err_at("Expected the atom `"@ + expected@ + "`"@, a.loc)
                    },
                }
            },
            old(self).elems@.len() > 0 ==> final(self).rest() == old(self).rest().drop_first(),
            match pop_known_atom_v(old(self).rest(), old(self).span.end, expected@) {
                Ok(_) => res is Ok,
                Err(e) => res matches Err(x) && x@ == e,
            },
    {
        proof {
            if old(self).elems@.len() > 0 {
                lemma_seq_view_drop_first(old(self).elems@);
            }
        }
        match self.next() {
            None => {
                let mut m = string_of("Expected atom ");
                m.append(expected);
                m.append(" but got end of list");
                Err(self.loc().end().invalid(m))
            },
            Some(sexpr) => {
                match sexpr.as_atom() {
                    None => {
                        let mut m = string_of("Expected atom `");
                        m.append(expected);
                        m.append("`");
                        Err(sexpr.invalid(m))
                    },
                    Some(a) => {
                        if a.is(expected) {
                            Ok(())
                        } else {
                            let mut m = string_of("Expected the atom `");
                            m.append(expected);
                            m.append("`");
                            Err(a.invalid(m))
                        }
                    },
                }
            },
        }
    }

    /// Consumes the next element, which must be an atom.
    pub fn pop_atom(&mut self) -> (res: Result<&'a SAtom, ErrLoc>)
        ensures
            final(self).span == old(self).span,
            if old(self).elems@.len() == 0 {
                &&& final(self).elems@ == old(self).elems@
                &&& res matches Err(e) && e@ == err_at("Expected an atom but got end of list."@, Some(Loc { span: Span::spec_point(old(self).span.end) }))
            } else {
                &&& final(self).elems@ == old(self).elems@.drop_first()
                &&& match old(self).elems@[0] {
                    SExpr::List(l) => res matches Err(e) && e@ == err_at("Expected an atom"@, Some(Loc { span: l.span })),
                    SExpr::Atom(a) => res == Ok::<&SAtom, ErrLoc>(&a),
                }
            },
            old(self).elems@.len() > 0 ==> final(self).rest() == old(self).rest().drop_first(),
            match pop_atom_v(old(self).rest(), old(self).span.end) {
                Ok(v) => res matches Ok(r) && r@ == v,
                Err(e) => res matches Err(x) && x@ == e,
            },
    {
        proof {
            if old(self).elems@.len() > 0 {
                lemma_seq_view_drop_first(old(self).elems@);
            }
        }
        match self.next() {
            None => Err(self.loc().end().invalid(string_of("Expected an atom but got end of list."))),
            Some(sexpr) => match sexpr.as_atom() {
                Some(a) => Ok(a),
                None => Err(sexpr.invalid(string_of("Expected an atom"))),
            },
        }
    }

    /// Consumes the next element, which must be a list.
    pub fn pop_list(&mut self) -> (res: Result<&'a SList, ErrLoc>)
        ensures
            final(self).span == old(self).span,
            if old(self).elems@.len() == 0 {
                &&& final(self).elems@ == old(self).elems@
                &&& res matches Err(e) && e@ == err_at("Expected a list but got end of list."@, Some(Loc { span: Span::spec_point(old(self).span.end) }))
            } else {
                &&& final(self).elems@ == old(self).elems@.drop_first()
                &&& match old(self).elems@[0] {
                    SExpr::Atom(a) => res matches Err(e) && e@ == err_at("Expected a list"@, a.loc),
                    SExpr::List(l) => res == Ok::<&SList, ErrLoc>(&l),
                }
            },
            old(self).elems@.len() > 0 ==> final(self).rest() == old(self).rest().drop_first(),
            match pop_list_v(old(self).rest(), old(self).span.end) {
                Ok(v) => res matches Ok(r) && r.view() == v.0 && r.span == v.1,
                Err(e) => res matches Err(x) && x@ == e,
            },
    {
        proof {
            if old(self).elems@.len() > 0 {
                lemma_seq_view_drop_first(old(self).elems@);
            }
        }
        match self.next() {
            None => Err(self.loc().end().invalid(string_of("Expected a list but got end of list."))),
            Some(sexpr) => match sexpr.as_list() {
                Some(l) => Ok(l),
                None => Err(sexpr.invalid(string_of("Expected a list"))),
            },
        }
    }
}

} // verus!
