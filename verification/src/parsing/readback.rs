//! Reading back a printed s-expression gives the same expression, up to locations.
use vstd::prelude::*;
use crate::input::{Span, Pos, ascii_lower, ascii_lower_text};
use crate::parsing::sexpr::{
    Token, TokState, SExprV, tok_step, tok_init, tok_run, spec_tokenize, make_sym, is_delim, display, display_seq,
    spec_read, spec_read_list, spec_atom, spec_parse, spec_quoted,
};

verus! {

/// The state of the tokenizer after reading `s` from the state `st`.
pub open spec fn tok_from(st: TokState, s: Seq<char>) -> TokState
    decreases s.len(),
{
    if s.len() == 0 {
        st
    } else {
        tok_step(tok_from(st, s.drop_last()), s.last())
    }
}

/// The tokens of a state, with the symbol being read closed.
pub open spec fn flushed(st: TokState) -> Seq<Token> {
    match st.cur_start {
        Some(start) => st.tokens.push(make_sym(start, st.index - 1, st.line, st.line_start)),
        None => st.tokens,
    }
}

proof fn lemma_tok_run(s: Seq<char>)
    ensures
        tok_run(s) == tok_from(tok_init(), s),
    decreases s.len(),
{
    if s.len() > 0 {
        lemma_tok_run(s.drop_last());
    }
}

proof fn lemma_tok_from_concat(st: TokState, a: Seq<char>, b: Seq<char>)
    ensures
        tok_from(st, a + b) == tok_from(tok_from(st, a), b),
    decreases b.len(),
{
    if b.len() == 0 {
        assert(a + b =~= a);
    } else {
        lemma_tok_from_concat(st, a, b.drop_last());
        assert((a + b).drop_last() =~= a + b.drop_last());
        assert((a + b).last() == b.last());
    }
}

proof fn lemma_tok_one(st: TokState, x: char)
    ensures
        tok_from(st, seq![x]) == tok_step(st, x),
{
    let s = seq![x];
    assert(s.drop_last() =~= Seq::<char>::empty());
    assert(tok_from(st, s.drop_last()) == st);
    assert(s.last() == x);
}

/// Reading the characters of a symbol from a state where no symbol is being read starts a
/// symbol at the current index.
proof fn lemma_tok_symbol(st: TokState, c: Seq<char>)
    requires
        c.len() > 0,
        !st.in_comment,
        st.cur_start is None,
        forall|i: int| 0 <= i < c.len() ==> !is_delim(#[trigger] c[i]),
    ensures
        ({
            let st2 = tok_from(st, c);
            &&& st2.index == st.index + c.len()
            &&& st2.cur_start == Some(st.index)
            &&& st2.tokens == st.tokens
            &&& !st2.in_comment
            &&& st2.line == st.line
            &&& st2.line_start == st.line_start
        }),
    decreases c.len(),
{
    let s1 = tok_from(st, c.drop_last());
    assert(tok_from(st, c) == tok_step(s1, c.last()));
    assert(!is_delim(c.last()));
    if c.len() > 1 {
        assert forall|i: int| 0 <= i < c.drop_last().len() implies !is_delim(#[trigger] c.drop_last()[i]) by {
            assert(c.drop_last()[i] == c[i]);
        }
        lemma_tok_symbol(st, c.drop_last());
    } else {
        assert(c.drop_last().len() == 0);
        assert(s1 == st);
    }
}

/// An expression that prints as it reads: its atoms are non-empty, hold no character that ends
/// a symbol, and are in lower case.
pub open spec fn printable(e: SExprV) -> bool
    decreases e,
{
    match e {
        SExprV::Atom(c, _) => c.len() > 0 && forall|i: int|
            0 <= i < c.len() ==> !is_delim(#[trigger] c[i]) && ascii_lower(c[i]) == c[i],
        SExprV::List(l, _) => forall|i: int| 0 <= i < l.len() ==> printable(#[trigger] l[i]),
    }
}

/// The kind of a token, with the text of a symbol.
pub enum Kind {
    Sym(Seq<char>),
    Open,
    Close,
    Other,
}

pub open spec fn kind(t: Token, text: Seq<char>) -> Kind {
    match t {
        Token::Sym { start, end, .. } => Kind::Sym(text.subrange(start as int, end as int + 1)),
        Token::LParen(_) => Kind::Open,
        Token::RParen(_) => Kind::Close,
        _ => Kind::Other,
    }
}

/// The kinds of the tokens of the printed form of an expression.
pub open spec fn ekinds(e: SExprV) -> Seq<Kind>
    decreases e, 1int,
{
    match e {
        SExprV::Atom(c, _) => seq![Kind::Sym(c)],
        SExprV::List(l, _) => seq![Kind::Open] + ekinds_seq(l) + seq![Kind::Close],
    }
}

pub open spec fn ekinds_seq(l: Seq<SExprV>) -> Seq<Kind>
    decreases l, 0int,
{
    if l.len() == 0 {
        seq![]
    } else {
        ekinds_seq(l.drop_last()) + ekinds(l.last())
    }
}

/// The tokens `toks` from index `pos` on have the kinds `ks`.
pub open spec fn kinds_at(toks: Seq<Token>, text: Seq<char>, pos: int, ks: Seq<Kind>) -> bool {
    &&& 0 <= pos
    &&& pos + ks.len() <= toks.len()
    &&& forall|j: int| pos <= j < pos + ks.len() ==> kind(#[trigger] toks[j], text) == ks[j - pos]
}

/// Reading the printed form of `e` from a state where no symbol is being read, at the index
/// where that form stands in `text`, adds tokens of the kinds `ekinds(e)`.
proof fn lemma_tok_display(st: TokState, e: SExprV, text: Seq<char>)
    requires
        printable(e),
        !st.in_comment,
        st.cur_start is None,
        0 <= st.index,
        st.index + display(e).len() <= text.len() < u32::MAX,
        text.subrange(st.index, st.index + display(e).len()) == display(e),
    ensures
        ({
            let st2 = tok_from(st, display(e));
            &&& st2.index == st.index + display(e).len()
            &&& !st2.in_comment
            &&& st2.line == st.line
            &&& st2.line_start == st.line_start
            &&& st2.tokens.len() >= st.tokens.len()
            &&& kinds_at(flushed(st2), text, st.tokens.len() as int, ekinds(e))
            &&& flushed(st2).len() == st.tokens.len() + ekinds(e).len()
            &&& flushed(st2).subrange(0, st.tokens.len() as int) == st.tokens
        }),
    decreases e, 1int,
{
    let d = display(e);
    match e {
        SExprV::Atom(c, _) => {
            lemma_tok_symbol(st, c);
            let st2 = tok_from(st, c);
            let tk = make_sym(st.index, st2.index - 1, st2.line, st2.line_start);
            assert(flushed(st2) == st.tokens.push(tk));
            assert(text.subrange(st.index, st.index + c.len()) == c);
            assert(kind(tk, text) == Kind::Sym(c));
            assert(flushed(st2)[st.tokens.len() as int] == tk);
            assert(flushed(st2).subrange(0, st.tokens.len() as int) =~= st.tokens);
        },
        SExprV::List(l, _) => {
            let ds = display_seq(l);
            assert(d == seq!['('] + ds + seq![')']);
            // the opening parenthesis
            let s1 = tok_step(st, '(');
            lemma_tok_one(st, '(');
            assert(s1.tokens == st.tokens.push(Token::LParen(Pos { line: st.line as u32, column: (st.index - st.line_start) as u32 })));
            // the elements
            assert(text.subrange(s1.index, s1.index + ds.len()) =~= ds) by {
                assert forall|k: int| 0 <= k < ds.len() implies text.subrange(s1.index, s1.index + ds.len())[k] == ds[k] by {
                    assert(text.subrange(st.index, st.index + d.len())[k + 1] == d[k + 1]);
                }
            }
            lemma_tok_display_seq(s1, l, text);
            let s2 = tok_from(s1, ds);
            // the closing parenthesis
            let s3 = tok_step(s2, ')');
            lemma_tok_one(s2, ')');
            lemma_tok_from_concat(st, seq!['('], ds);
            lemma_tok_from_concat(st, seq!['('] + ds, seq![')']);
            assert(tok_from(st, d) == s3);
            assert(s3.tokens == flushed(s2).push(Token::RParen(Pos { line: s2.line as u32, column: (s2.index - s2.line_start) as u32 })));
            assert(flushed(s3) == s3.tokens);
            let n0 = st.tokens.len() as int;
            assert(ekinds(e) == seq![Kind::Open] + ekinds_seq(l) + seq![Kind::Close]);
            assert(flushed(s3).subrange(0, n0) =~= st.tokens) by {
                assert forall|k: int| 0 <= k < n0 implies flushed(s3)[k] == st.tokens[k] by {
                    assert(flushed(s2).subrange(0, s1.tokens.len() as int)[k] == s1.tokens[k]);
                }
            }
            assert forall|j: int| n0 <= j < n0 + ekinds(e).len() implies kind(#[trigger] flushed(s3)[j], text) == ekinds(e)[j - n0] by {
                if j == n0 {
                    assert(flushed(s2).subrange(0, s1.tokens.len() as int)[j] == s1.tokens[j]);
                } else if j < n0 + 1 + ekinds_seq(l).len() {
                    assert(flushed(s3)[j] == flushed(s2)[j]);
                } else {
                    assert(flushed(s3)[j] == s3.tokens.last());
                }
            }
        },
    }
}

/// Reading the printed form of a sequence of expressions, as `lemma_tok_display` does for one.
proof fn lemma_tok_display_seq(st: TokState, l: Seq<SExprV>, text: Seq<char>)
    requires
        forall|i: int| 0 <= i < l.len() ==> printable(#[trigger] l[i]),
        !st.in_comment,
        st.cur_start is None,
        0 <= st.index,
        st.index + display_seq(l).len() <= text.len() < u32::MAX,
        text.subrange(st.index, st.index + display_seq(l).len()) == display_seq(l),
    ensures
        ({
            let st2 = tok_from(st, display_seq(l));
            &&& st2.index == st.index + display_seq(l).len()
            &&& !st2.in_comment
            &&& st2.line == st.line
            &&& st2.line_start == st.line_start
            &&& st2.tokens.len() >= st.tokens.len()
            &&& kinds_at(flushed(st2), text, st.tokens.len() as int, ekinds_seq(l))
            &&& flushed(st2).len() == st.tokens.len() + ekinds_seq(l).len()
            &&& flushed(st2).subrange(0, st.tokens.len() as int) == st.tokens
        }),
    decreases l, 0int,
{
    let n0 = st.tokens.len() as int;
    if l.len() == 0 {
        assert(flushed(st).subrange(0, n0) =~= st.tokens);
    } else if l.len() == 1 {
        assert(display_seq(l) == display(l[0]));
        assert(ekinds_seq(l) =~= ekinds(l[0])) by {
            assert(l.drop_last().len() == 0);
        }
        lemma_tok_display(st, l[0], text);
    } else {
        let a = display_seq(l.drop_last());
        let b = display(l.last());
        assert(display_seq(l) == a + seq![' '] + b);
        assert(text.subrange(st.index, st.index + a.len()) =~= a) by {
            assert forall|k: int| 0 <= k < a.len() implies text.subrange(st.index, st.index + a.len())[k] == a[k] by {
                assert(text.subrange(st.index, st.index + display_seq(l).len())[k] == display_seq(l)[k]);
            }
        }
        assert forall|i: int| 0 <= i < l.drop_last().len() implies printable(#[trigger] l.drop_last()[i]) by {
            assert(l.drop_last()[i] == l[i]);
        }
        lemma_tok_display_seq(st, l.drop_last(), text);
        let sa = tok_from(st, a);
        let ssp = tok_step(sa, ' ');
        lemma_tok_one(sa, ' ');
        assert(ssp.tokens == flushed(sa));
        assert(text.subrange(ssp.index, ssp.index + b.len()) =~= b) by {
            assert forall|k: int| 0 <= k < b.len() implies text.subrange(ssp.index, ssp.index + b.len())[k] == b[k] by {
                assert(text.subrange(st.index, st.index + display_seq(l).len())[a.len() + 1 + k] == display_seq(l)[a.len() + 1 + k]);
            }
        }
        assert(printable(l[l.len() - 1]));
        lemma_tok_display(ssp, l.last(), text);
        let sb = tok_from(ssp, b);
        lemma_tok_from_concat(st, a, seq![' ']);
        lemma_tok_from_concat(st, a + seq![' '], b);
        assert(tok_from(st, display_seq(l)) == sb);
        let na = ekinds_seq(l.drop_last()).len() as int;
        assert(ekinds_seq(l) == ekinds_seq(l.drop_last()) + ekinds(l.last()));
        assert(flushed(sb).subrange(0, n0) =~= st.tokens) by {
            assert forall|k: int| 0 <= k < n0 implies flushed(sb)[k] == st.tokens[k] by {
                assert(flushed(sb).subrange(0, ssp.tokens.len() as int)[k] == ssp.tokens[k]);
                assert(flushed(sa).subrange(0, n0)[k] == st.tokens[k]);
            }
        }
        assert forall|j: int| n0 <= j < n0 + ekinds_seq(l).len() implies kind(#[trigger] flushed(sb)[j], text) == ekinds_seq(l)[j - n0] by {
            if j < n0 + na {
                assert(flushed(sb).subrange(0, ssp.tokens.len() as int)[j] == ssp.tokens[j]);
                assert(kind(flushed(sa)[j], text) == ekinds_seq(l.drop_last())[j - n0]);
            } else {
                assert(kind(flushed(sb)[j], text) == ekinds(l.last())[j - n0 - na]);
            }
        }
    }
}

/// The ekinds of a non-empty sequence: those of its first element, then those of the rest.
proof fn lemma_ekinds_front(l: Seq<SExprV>)
    requires
        l.len() > 0,
    ensures
        ekinds_seq(l) == ekinds(l[0]) + ekinds_seq(l.drop_first()),
    decreases l.len(),
{
    if l.len() == 1 {
        assert(l.drop_last().len() == 0);
        assert(l.drop_first().len() == 0);
        assert(ekinds_seq(l.drop_last()) =~= Seq::<Kind>::empty());
        assert(ekinds_seq(l.drop_first()) =~= Seq::<Kind>::empty());
        assert(l.last() == l[0]);
        assert(ekinds_seq(l) =~= ekinds(l[0]));
        assert(ekinds(l[0]) + ekinds_seq(l.drop_first()) =~= ekinds(l[0]));
    } else {
        lemma_ekinds_front(l.drop_last());
        assert(l.drop_last().drop_first() =~= l.drop_first().drop_last());
        assert(l.drop_first().last() == l.last());
        assert(l.drop_last()[0] == l[0]);
        assert(ekinds_seq(l) =~= ekinds(l[0]) + ekinds_seq(l.drop_first()));
    }
}

/// An expression without its locations.
pub open spec fn strip(e: SExprV) -> SExprV
    decreases e, 1int,
{
    match e {
        SExprV::Atom(c, _) => SExprV::Atom(c, None),
        SExprV::List(l, _) => SExprV::List(
            strip_seq(l),
            Span { start: Pos { line: 0, column: 0 }, end: Pos { line: 0, column: 0 } },
        ),
    }
}

pub open spec fn strip_seq(l: Seq<SExprV>) -> Seq<SExprV>
    decreases l, 0int,
{
    if l.len() == 0 {
        seq![]
    } else {
        strip_seq(l.drop_last()).push(strip(l.last()))
    }
}

/// Sequences whose elements are the same without locations are the same without locations.
proof fn lemma_strip_seq(a: Seq<SExprV>, b: Seq<SExprV>)
    requires
        a.len() == b.len(),
        forall|i: int| 0 <= i < a.len() ==> strip(#[trigger] a[i]) == strip(b[i]),
    ensures
        strip_seq(a) == strip_seq(b),
    decreases a.len(),
{
    if a.len() > 0 {
        assert forall|i: int| 0 <= i < a.drop_last().len() implies strip(#[trigger] a.drop_last()[i]) == strip(b.drop_last()[i]) by {
            assert(a.drop_last()[i] == a[i]);
            assert(b.drop_last()[i] == b[i]);
        }
        lemma_strip_seq(a.drop_last(), b.drop_last());
        assert(strip(a[a.len() - 1]) == strip(b[b.len() - 1]));
    }
}

/// Reading from tokens of the kinds `ekinds(e)` gives `e`, up to locations, and goes past them.
proof fn lemma_read(toks: Seq<Token>, text: Seq<char>, pos: int, e: SExprV)
    requires
        printable(e),
        kinds_at(toks, text, pos, ekinds(e)),
    ensures
        spec_read(toks, text, pos) matches Ok((r, p)) && p == pos + ekinds(e).len() && strip(r) == strip(e),
    decreases e, 1int,
{
    match e {
        SExprV::Atom(c, _) => {
            assert(kind(toks[pos], text) == ekinds(e)[0]);
            match toks[pos] {
                Token::Sym { start, end, start_pos } => {
                    assert(text.subrange(start as int, end as int + 1) == c);
                    assert(ascii_lower_text(c) =~= c);
                },
                _ => {},
            }
        },
        SExprV::List(l, _) => {
            assert(kind(toks[pos], text) == ekinds(e)[0]);
            let start = toks[pos]->LParen_0;
            let ks = ekinds_seq(l);
            assert(ekinds(e) == seq![Kind::Open] + ks + seq![Kind::Close]);
            assert(kinds_at(toks, text, pos + 1, ks + seq![Kind::Close])) by {
                assert forall|j: int| pos + 1 <= j < pos + 1 + (ks + seq![Kind::Close]).len() implies kind(#[trigger] toks[j], text)
                    == (ks + seq![Kind::Close])[j - (pos + 1)] by {
                    assert(kind(toks[j], text) == ekinds(e)[j - pos]);
                }
            }
            lemma_read_list(toks, text, pos + 1, start, seq![], l);
            let r = spec_read_list(toks, text, pos + 1, start, seq![])->Ok_0.0;
            let rl = r->List_0;
            assert forall|i: int| 0 <= i < rl.len() implies strip(#[trigger] rl[i]) == strip(l[i]) by {
                let acc0 = Seq::<SExprV>::empty();
                assert(strip(rl[acc0.len() + i]) == strip(l[i]));
            }
            lemma_strip_seq(rl, l);
        },
    }
}

/// Reading the rest of a list from tokens of the kinds of `l`, then a closing parenthesis,
/// adds the elements of `l` (up to locations) to those read already.
proof fn lemma_read_list(toks: Seq<Token>, text: Seq<char>, pos: int, start: Pos, acc: Seq<SExprV>, l: Seq<SExprV>)
    requires
        forall|i: int| 0 <= i < l.len() ==> printable(#[trigger] l[i]),
        kinds_at(toks, text, pos, ekinds_seq(l) + seq![Kind::Close]),
    ensures
        ({
            let res = spec_read_list(toks, text, pos, start, acc);
            let rl = res->Ok_0.0->List_0;
            &&& res is Ok
            &&& res->Ok_0.1 == pos + ekinds_seq(l).len() + 1
            &&& res->Ok_0.0 is List
            &&& rl.len() == acc.len() + l.len()
            &&& rl.subrange(0, acc.len() as int) == acc
            &&& forall|i: int| 0 <= i < l.len() ==> strip(#[trigger] rl[acc.len() + i]) == strip(l[i])
        }),
    decreases l, 0int,
{
    let ks = ekinds_seq(l) + seq![Kind::Close];
    if l.len() == 0 {
        assert(kind(toks[pos], text) == ks[0]);
        let r = SExprV::List(acc, Span { start, end: toks[pos]->RParen_0 });
        assert(spec_read_list(toks, text, pos, start, acc) == Ok::<(SExprV, int), crate::parsing::sexpr::ReadError>((r, pos + 1)));
        assert(acc.subrange(0, acc.len() as int) =~= acc);
    } else {
        lemma_ekinds_front(l);
        let k0 = ekinds(l[0]);
        assert(printable(l[0]));
        // the first element does not start with a closing parenthesis
        assert(kind(toks[pos], text) == ks[0]);
        assert(ks[0] == k0[0]);
        assert(!(toks[pos] is RParen)) by {
            match l[0] {
                SExprV::Atom(c, _) => {},
                SExprV::List(m, _) => {},
            }
        }
        assert(kinds_at(toks, text, pos, k0)) by {
            assert forall|j: int| pos <= j < pos + k0.len() implies kind(#[trigger] toks[j], text) == k0[j - pos] by {
                assert(kind(toks[j], text) == ks[j - pos]);
            }
        }
        lemma_read(toks, text, pos, l[0]);
        let (e0, p0) = spec_read(toks, text, pos)->Ok_0;
        assert(k0.len() > 0) by {
            match l[0] {
                SExprV::Atom(c, _) => {},
                SExprV::List(m, _) => {},
            }
        }
        let rest = l.drop_first();
        assert forall|i: int| 0 <= i < rest.len() implies printable(#[trigger] rest[i]) by {
            assert(rest[i] == l[i + 1]);
        }
        assert(kinds_at(toks, text, p0, ekinds_seq(rest) + seq![Kind::Close])) by {
            assert forall|j: int| p0 <= j < p0 + (ekinds_seq(rest) + seq![Kind::Close]).len() implies kind(#[trigger] toks[j], text)
                == (ekinds_seq(rest) + seq![Kind::Close])[j - p0] by {
                assert(kind(toks[j], text) == ks[j - pos]);
                assert(ks[j - pos] == (ekinds_seq(rest) + seq![Kind::Close])[j - p0]);
            }
        }
        lemma_read_list(toks, text, p0, start, acc.push(e0), rest);
        let rl = spec_read_list(toks, text, p0, start, acc.push(e0))->Ok_0.0->List_0;
        assert(rl.subrange(0, acc.len() as int) =~= acc) by {
            assert forall|i: int| 0 <= i < acc.len() implies rl[i] == acc[i] by {
                assert(rl.subrange(0, acc.len() as int + 1)[i] == acc.push(e0)[i]);
            }
        }
        assert forall|i: int| 0 <= i < l.len() implies strip(#[trigger] rl[acc.len() + i]) == strip(l[i]) by {
            if i == 0 {
                assert(rl.subrange(0, acc.len() as int + 1)[acc.len() as int] == acc.push(e0)[acc.len() as int]);
            } else {
                assert(strip(rl[acc.push(e0).len() + (i - 1)]) == strip(rest[i - 1]));
            }
        }
    }
}

/// Printing an expression whose atoms are non-empty lower-case symbols, and reading the text
/// back, gives the same expression, up to locations.
pub proof fn lemma_read_back(e: SExprV)
    requires
        printable(e),
        display(e).len() < u32::MAX,
    ensures
        spec_parse(display(e)) matches Ok(r) && strip(r) == strip(e),
{
    let text = display(e);
    lemma_tok_run(text);
    assert(text.subrange(0, text.len() as int) =~= text);
    lemma_tok_display(tok_init(), e, text);
    assert(spec_tokenize(text) == flushed(tok_run(text)));
    lemma_read(spec_tokenize(text), text, 0, e);
}

/// The symbol tokens of `toks` designate non-empty ranges of `text` made of characters that
/// do not end a symbol.
pub open spec fn syms_ok(toks: Seq<Token>, text: Seq<char>) -> bool {
    forall|k: int|
        0 <= k < toks.len() ==> match #[trigger] toks[k] {
            Token::Sym { start, end, .. } => start <= end < text.len() && forall|i: int|
                start <= i <= end ==> !is_delim(#[trigger] text[i]),
            _ => true,
        }
}

/// What the tokenizer keeps true while reading `s`.
pub open spec fn tok_inv(st: TokState, s: Seq<char>) -> bool {
    &&& st.index == s.len()
    &&& st.in_comment ==> st.cur_start is None
    &&& st.cur_start matches Some(cs) ==> 0 <= cs < st.index && forall|i: int| cs <= i < st.index ==> !is_delim(#[trigger] s[i])
    &&& syms_ok(st.tokens, s)
}

proof fn lemma_tok_inv(s: Seq<char>)
    requires
        s.len() < u32::MAX,
    ensures
        tok_inv(tok_run(s), s),
    decreases s.len(),
{
    if s.len() > 0 {
        let p = s.drop_last();
        lemma_tok_inv(p);
        let st = tok_run(p);
        let n = s.last();
        let st2 = tok_run(s);
        assert(st2 == tok_step(st, n));
        assert forall|i: int| 0 <= i < p.len() implies p[i] == s[i] by {}
        // the tokens of the previous state stay valid for the longer text
        assert(syms_ok(st.tokens, s)) by {
            assert forall|k: int| 0 <= k < st.tokens.len() implies match #[trigger] st.tokens[k] {
                Token::Sym { start, end, .. } => start <= end < s.len() && forall|i: int|
                    start <= i <= end ==> !is_delim(#[trigger] s[i]),
                _ => true,
            } by {
                match st.tokens[k] {
                    Token::Sym { start, end, .. } => {
                        assert forall|i: int| start <= i <= end implies !is_delim(#[trigger] s[i]) by {
                            assert(p[i] == s[i]);
                        }
                    },
                    _ => {},
                }
            }
        }
        if let Some(cs) = st.cur_start {
            assert forall|i: int| cs <= i < st.index implies !is_delim(#[trigger] s[i]) by {
                assert(p[i] == s[i]);
            }
        }
        // a symbol closed here is valid
        if is_delim(n) || st.in_comment {
            if let Some(cs) = st.cur_start {
                let tk = make_sym(cs, st.index - 1, st.line, st.line_start);
                assert(syms_ok(st.tokens.push(tk), s)) by {
                    assert forall|k: int| 0 <= k < st.tokens.push(tk).len() implies match #[trigger] st.tokens.push(tk)[k] {
                        Token::Sym { start, end, .. } => start <= end < s.len() && forall|i: int|
                            start <= i <= end ==> !is_delim(#[trigger] s[i]),
                        _ => true,
                    } by {
                        if k < st.tokens.len() {
                            assert(st.tokens.push(tk)[k] == st.tokens[k]);
                        }
                    }
                }
            }
            let base = flushed(st);
            assert(syms_ok(base, s));
            assert forall|t2: Token| #[trigger] syms_ok(base.push(t2), s) <== !(t2 is Sym) by {
                if !(t2 is Sym) {
                    assert forall|k: int| 0 <= k < base.push(t2).len() implies match #[trigger] base.push(t2)[k] {
                        Token::Sym { start, end, .. } => start <= end < s.len() && forall|i: int|
                            start <= i <= end ==> !is_delim(#[trigger] s[i]),
                        _ => true,
                    } by {
                        if k < base.len() {
                            assert(base.push(t2)[k] == base[k]);
                        }
                    }
                }
            }
        }
    }
}

/// The tokens of a text designate valid symbols.
proof fn lemma_tokenize_syms(s: Seq<char>)
    requires
        s.len() < u32::MAX,
    ensures
        syms_ok(spec_tokenize(s), s),
{
    lemma_tok_inv(s);
    let st = tok_run(s);
    if let Some(cs) = st.cur_start {
        let tk = make_sym(cs, st.index - 1, st.line, st.line_start);
        assert forall|k: int| 0 <= k < st.tokens.push(tk).len() implies match #[trigger] st.tokens.push(tk)[k] {
            Token::Sym { start, end, .. } => start <= end < s.len() && forall|i: int|
                start <= i <= end ==> !is_delim(#[trigger] s[i]),
            _ => true,
        } by {
            if k < st.tokens.len() {
                assert(st.tokens.push(tk)[k] == st.tokens[k]);
            }
        }
    }
}

/// A character that does not end a symbol, in lower case, still does not end a symbol and is
/// its own lower case.
proof fn lemma_lower_char(c: char)
    requires
        !is_delim(c),
    ensures
        !is_delim(ascii_lower(c)),
        ascii_lower(ascii_lower(c)) == ascii_lower(c),
{
}

/// The name of a quoting form, as an atom, is printable.
proof fn lemma_name_printable(name: Seq<char>)
    requires
        name == "quote"@ || name == "quasiquote"@ || name == "unquote"@,
    ensures
        forall|at: Pos, e: SExprV| printable(e) ==> #[trigger] printable(spec_quoted(name, at, e)),
{
    reveal_strlit("quote");
    reveal_strlit("quasiquote");
    reveal_strlit("unquote");
    assert(printable(SExprV::Atom(name, None)));
    assert forall|at: Pos, e: SExprV| printable(e) implies #[trigger] printable(spec_quoted(name, at, e)) by {
        let l = seq![SExprV::Atom(name, None), e];
        assert(l[0] == SExprV::Atom(name, None));
        assert(l[1] == e);
    }
}

/// The expressions read from valid tokens are printable.
proof fn lemma_read_printable(toks: Seq<Token>, text: Seq<char>, pos: int)
    requires
        syms_ok(toks, text),
    ensures
        spec_read(toks, text, pos) matches Ok((e, p)) ==> printable(e) && pos < p <= toks.len(),
    decreases toks.len() - pos, 0int,
{
    if 0 <= pos < toks.len() {
        match toks[pos] {
            Token::Sym { start, end, start_pos } => {
                let raw = text.subrange(start as int, end as int + 1);
                let c = ascii_lower_text(raw);
                assert(start <= end < text.len());
                assert forall|i: int| 0 <= i < c.len() implies !is_delim(#[trigger] c[i]) && ascii_lower(c[i]) == c[i] by {
                    assert(raw[i] == text[start + i]);
                    lemma_lower_char(raw[i]);
                }
                assert(printable(spec_atom(text, start as int, end as int, start_pos)));
            },
            Token::LParen(start) => {
                lemma_read_list_printable(toks, text, pos + 1, start, seq![]);
            },
            Token::RParen(_) => {},
            Token::Quote(at) => {
                lemma_read_printable(toks, text, pos + 1);
                lemma_name_printable("quote"@);
                reveal_strlit("quote");
            },
            Token::QuasiQuote(at) => {
                lemma_read_printable(toks, text, pos + 1);
                lemma_name_printable("quasiquote"@);
                reveal_strlit("quasiquote");
            },
            Token::Unquote(at) => {
                lemma_read_printable(toks, text, pos + 1);
                lemma_name_printable("unquote"@);
                reveal_strlit("unquote");
            },
        }
    }
}

proof fn lemma_read_list_printable(toks: Seq<Token>, text: Seq<char>, pos: int, start: Pos, acc: Seq<SExprV>)
    requires
        syms_ok(toks, text),
        forall|i: int| 0 <= i < acc.len() ==> printable(#[trigger] acc[i]),
    ensures
        spec_read_list(toks, text, pos, start, acc) matches Ok((e, p)) ==> printable(e) && pos < p <= toks.len(),
    decreases toks.len() - pos, 1int,
{
    if 0 <= pos < toks.len() && toks[pos] is RParen {
    } else {
        lemma_read_printable(toks, text, pos);
        if let Ok((e, p)) = spec_read(toks, text, pos) {
            if pos < p <= toks.len() {
                assert forall|i: int| 0 <= i < acc.push(e).len() implies printable(#[trigger] acc.push(e)[i]) by {
                    if i < acc.len() {
                        assert(acc.push(e)[i] == acc[i]);
                    }
                }
                lemma_read_list_printable(toks, text, p, start, acc.push(e));
            }
        }
    }
}

/// Every expression that `parse` reads is printable.
pub proof fn lemma_parsed_printable(s: Seq<char>)
    requires
        s.len() < u32::MAX,
    ensures
        spec_parse(s) matches Ok(e) ==> printable(e),
{
    lemma_tokenize_syms(s);
    lemma_read_printable(spec_tokenize(s), s, 0);
}

/// Printing an expression that `parse` read from a text, and reading the printed text back,
/// gives the same expression, up to locations.
pub proof fn lemma_parse_display_parse(s: Seq<char>)
    requires
        s.len() < u32::MAX,
        spec_parse(s) is Ok,
        display(spec_parse(s)->Ok_0).len() < u32::MAX,
    ensures
        ({
            let e = spec_parse(s)->Ok_0;
            spec_parse(display(e)) matches Ok(r) && strip(r) == strip(e)
        }),
{
    lemma_parsed_printable(s);
    lemma_read_back(spec_parse(s)->Ok_0);
}

} // verus!
