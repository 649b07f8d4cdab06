//! The parser: recursive descent over the token list, lowering each statement
//! straight to stack-machine instructions in postfix order.
//!
//! ```text
//! program := { [expr] (';' | end) }
//! expr    := term { ('+' | '-') term }
//! term    := unary { ('*' | '/') unary }
//! unary   := '-' unary | primary
//! primary := number | string | '(' expr ')'
//! ```
//!
//! A token list that stops without an end-of-input token is read as if one
//! followed it. A statement with a syntax error gives one diagnostic and no
//! code; parsing resumes after the next `;`.
use vstd::prelude::*;
use crate::token::{
    Span, Lex, LexTok, LexerToken, LexerTokenKind, Op, Instr, ParserToken, ParserTokenKind,
    Diagnostic, DiagnosticKind, diag_model, all_labelled, lex_toks, instrs, label_of,
    label_or_default, copy_bytes,
};

verus! {

/// The kind of token `p`; past the end, end of input.
pub open spec fn kind_at(t: Seq<LexTok>, p: nat) -> Lex {
    if p < t.len() {
        t[p as int].kind
    } else {
        Lex::EndOfInput
    }
}

/// The span of token `p`; past the end, that of the last token.
pub open spec fn span_of(t: Seq<LexTok>, p: nat) -> Span {
    if p < t.len() {
        t[p as int].span
    } else if t.len() > 0 {
        t.last().span
    } else {
        Span { line: 1, column: 1, offset: 0 }
    }
}

pub open spec fn ins(op: Op, span: Span) -> Instr {
    Instr { op, span }
}

/// The code of a phrase and the position after it, or a syntax error.
pub type Parsed = Result<(Seq<Instr>, nat), (DiagnosticKind, Span)>;

/// An expression at `p`.
pub open spec fn p_expr(t: Seq<LexTok>, p: nat) -> Parsed
    decreases t.len() - p, 4nat,
{
    match p_term(t, p) {
        Err(e) => Err(e),
        Ok((c, q)) => if p < q <= t.len() {
            p_expr_rest(t, q, c)
        } else {
            Err((DiagnosticKind::UnexpectedToken, span_of(t, p)))
        },
    }
}

/// The `+` and `-` operations at `q` that follow the code `acc`.
pub open spec fn p_expr_rest(t: Seq<LexTok>, q: nat, acc: Seq<Instr>) -> Parsed
    decreases t.len() - q, 4nat,
{
    if kind_at(t, q) is Plus || kind_at(t, q) is Minus {
        let op = if kind_at(t, q) is Plus {
            Op::Add
        } else {
            Op::Sub
        };
        match p_term(t, q + 1) {
            Err(e) => Err(e),
            Ok((c, q2)) => if q < q2 <= t.len() {
                p_expr_rest(t, q2, acc + c + seq![ins(op, span_of(t, q))])
            } else {
                Err((DiagnosticKind::UnexpectedToken, span_of(t, q)))
            },
        }
    } else {
        Ok((acc, q))
    }
}

/// A term at `p`.
pub open spec fn p_term(t: Seq<LexTok>, p: nat) -> Parsed
    decreases t.len() - p, 3nat,
{
    match p_unary(t, p) {
        Err(e) => Err(e),
        Ok((c, q)) => if p < q <= t.len() {
            p_term_rest(t, q, c)
        } else {
            Err((DiagnosticKind::UnexpectedToken, span_of(t, p)))
        },
    }
}

/// The `*` and `/` operations at `q` that follow the code `acc`.
pub open spec fn p_term_rest(t: Seq<LexTok>, q: nat, acc: Seq<Instr>) -> Parsed
    decreases t.len() - q, 3nat,
{
    if kind_at(t, q) is Star || kind_at(t, q) is Slash {
        let op = if kind_at(t, q) is Star {
            Op::Mul
        } else {
            Op::Div
        };
        match p_unary(t, q + 1) {
            Err(e) => Err(e),
            Ok((c, q2)) => if q < q2 <= t.len() {
                p_term_rest(t, q2, acc + c + seq![ins(op, span_of(t, q))])
            } else {
                Err((DiagnosticKind::UnexpectedToken, span_of(t, q)))
            },
        }
    } else {
        Ok((acc, q))
    }
}

/// A unary expression at `p`.
pub open spec fn p_unary(t: Seq<LexTok>, p: nat) -> Parsed
    decreases t.len() - p, 2nat,
{
    if kind_at(t, p) is Minus {
        match p_unary(t, p + 1) {
            Err(e) => Err(e),
            Ok((c, q)) => Ok((c + seq![ins(Op::Neg, span_of(t, p))], q)),
        }
    } else {
        p_primary(t, p)
    }
}

/// A literal or a parenthesised expression at `p`.
pub open spec fn p_primary(t: Seq<LexTok>, p: nat) -> Parsed
    decreases t.len() - p, 1nat,
{
    match kind_at(t, p) {
        Lex::Number(n) => Ok((seq![ins(Op::PushConst(n), span_of(t, p))], p + 1)),
        Lex::Str(s) => Ok((seq![ins(Op::PushStr(s), span_of(t, p))], p + 1)),
        Lex::LParen => match p_expr(t, p + 1) {
            Err(e) => Err(e),
            Ok((c, q)) => if kind_at(t, q) is RParen {
                Ok((c, q + 1))
            } else {
                Err((DiagnosticKind::UnclosedParen, span_of(t, p)))
            },
        },
        _ => Err((DiagnosticKind::UnexpectedToken, span_of(t, p))),
    }
}

/// How many tokens from `p` on precede the next `;` or the end.
pub open spec fn stmt_run(t: Seq<LexTok>, p: nat) -> nat
    decreases t.len() - p,
{
    if p < t.len() && !(t[p as int].kind is Semicolon) && !(t[p as int].kind is EndOfInput) {
        1 + stmt_run(t, p + 1)
    } else {
        0
    }
}

/// The code and diagnostics of the statements from `p` on.
pub open spec fn p_stmts(t: Seq<LexTok>, p: nat) -> (Seq<Instr>, Seq<(DiagnosticKind, Span)>)
    decreases t.len() - p,
{
    if kind_at(t, p) is EndOfInput {
        (Seq::empty(), Seq::empty())
    } else if kind_at(t, p) is Semicolon {
        p_stmts(t, p + 1)
    } else {
        let resume = end_at_tok(t, p + 1 + stmt_run(t, p + 1));
        match p_expr(t, p) {
            Ok((c, q)) => if p < q <= t.len() && (kind_at(t, q) is Semicolon || kind_at(t, q) is EndOfInput) {
                let r = p_stmts(t, q);
                (c + r.0, r.1)
            } else {
                let r = p_stmts(t, resume);
                (r.0, seq![(DiagnosticKind::UnexpectedToken, span_of(t, q))] + r.1)
            },
            Err(e) => {
                let r = p_stmts(t, resume);
                (r.0, seq![e] + r.1)
            },
        }
    }
}

/// `j`, or the length of `t` where `j` is past it.
pub open spec fn end_at_tok(t: Seq<LexTok>, j: nat) -> nat {
    if j <= t.len() {
        j
    } else {
        t.len()
    }
}

/// The code and diagnostics of a whole token list.
pub open spec fn parse_program(t: Seq<LexTok>) -> (Seq<Instr>, Seq<(DiagnosticKind, Span)>) {
    p_stmts(t, 0)
}

/// The model of what a parsing function returns.
pub open spec fn parsed(r: Result<(Vec<ParserToken>, usize), (DiagnosticKind, Span)>) -> Parsed {
    match r {
        Ok((v, q)) => Ok((instrs(v@), q as nat)),
        Err(e) => Err(e),
    }
}

fn span_at_pos(t: &Vec<LexerToken>, p: usize) -> (r: Span)
    ensures
        r == span_of(lex_toks(t@), p as nat),
{
    if p < t.len() {
        t[p].span
    } else if t.len() > 0 {
        t[t.len() - 1].span
    } else {
        Span { line: 1, column: 1, offset: 0 }
    }
}

proof fn lemma_push_instr(v: Seq<ParserToken>, x: ParserToken)
    ensures
        instrs(v.push(x)) == instrs(v).push(x@),
{
    assert(instrs(v.push(x)) =~= instrs(v).push(x@));
}

proof fn lemma_append_instrs(a: Seq<ParserToken>, b: Seq<ParserToken>)
    ensures
        instrs(a + b) == instrs(a) + instrs(b),
{
    assert(instrs(a + b) =~= instrs(a) + instrs(b));
}

fn parse_expr(t: &Vec<LexerToken>, p: usize) -> (r: Result<(Vec<ParserToken>, usize), (DiagnosticKind, Span)>)
    requires
        p <= t@.len(),
        t@.len() < usize::MAX,
    ensures
        parsed(r) == p_expr(lex_toks(t@), p as nat),
        r is Ok ==> p < r->Ok_0.1 <= t@.len(),
    decreases t@.len() - p, 4nat,
{
    match parse_term(t, p) {
        Err(e) => Err(e),
        Ok((c, q)) => parse_expr_rest(t, q, c),
    }
}

fn parse_expr_rest(t: &Vec<LexerToken>, q: usize, acc: Vec<ParserToken>) -> (r: Result<(Vec<ParserToken>, usize), (DiagnosticKind, Span)>)
    requires
        q <= t@.len(),
        t@.len() < usize::MAX,
    ensures
        parsed(r) == p_expr_rest(lex_toks(t@), q as nat, instrs(acc@)),
        r is Ok ==> q <= r->Ok_0.1 <= t@.len(),
    decreases t@.len() - q, 4nat,
{
    let ghost tv = lex_toks(t@);
    assert(q < t@.len() ==> tv[q as int] == t@[q as int]@);
    let op = if q < t.len() {
        match t[q].kind {
            LexerTokenKind::Plus => Some(ParserTokenKind::Add),
            LexerTokenKind::Minus => Some(ParserTokenKind::Sub),
            _ => None,
        }
    } else {
        None
    };
    match op {
        None => Ok((acc, q)),
        Some(op) => {
            match parse_term(t, q + 1) {
                Err(e) => Err(e),
                Ok((c, q2)) => {
                    let mut acc = acc;
                    let mut c = c;
                    let ghost a0 = acc@;
                    let ghost c0 = c@;
                    acc.append(&mut c);
                    let x = ParserToken { kind: op, span: t[q].span };
                    acc.push(x);
                    proof {
                        lemma_append_instrs(a0, c0);
                        lemma_push_instr(a0 + c0, x);
                        assert(instrs(a0 + c0).push(x@) =~= instrs(a0) + instrs(c0) + seq![x@]);
                        assert(x@ == ins(if kind_at(tv, q as nat) is Plus { Op::Add } else { Op::Sub }, span_of(tv, q as nat)));
                    }
                    parse_expr_rest(t, q2, acc)
                },
            }
        },
    }
}

fn parse_term(t: &Vec<LexerToken>, p: usize) -> (r: Result<(Vec<ParserToken>, usize), (DiagnosticKind, Span)>)
    requires
        p <= t@.len(),
        t@.len() < usize::MAX,
    ensures
        parsed(r) == p_term(lex_toks(t@), p as nat),
        r is Ok ==> p < r->Ok_0.1 <= t@.len(),
    decreases t@.len() - p, 3nat,
{
    match parse_unary(t, p) {
        Err(e) => Err(e),
        Ok((c, q)) => parse_term_rest(t, q, c),
    }
}

fn parse_term_rest(t: &Vec<LexerToken>, q: usize, acc: Vec<ParserToken>) -> (r: Result<(Vec<ParserToken>, usize), (DiagnosticKind, Span)>)
    requires
        q <= t@.len(),
        t@.len() < usize::MAX,
    ensures
        parsed(r) == p_term_rest(lex_toks(t@), q as nat, instrs(acc@)),
        r is Ok ==> q <= r->Ok_0.1 <= t@.len(),
    decreases t@.len() - q, 3nat,
{
    let ghost tv = lex_toks(t@);
    assert(q < t@.len() ==> tv[q as int] == t@[q as int]@);
    let op = if q < t.len() {
        match t[q].kind {
            LexerTokenKind::Star => Some(ParserTokenKind::Mul),
            LexerTokenKind::Slash => Some(ParserTokenKind::Div),
            _ => None,
        }
    } else {
        None
    };
    match op {
        None => Ok((acc, q)),
        Some(op) => {
            match parse_unary(t, q + 1) {
                Err(e) => Err(e),
                Ok((c, q2)) => {
                    let mut acc = acc;
                    let mut c = c;
                    let ghost a0 = acc@;
                    let ghost c0 = c@;
                    acc.append(&mut c);
                    let x = ParserToken { kind: op, span: t[q].span };
                    acc.push(x);
                    proof {
                        lemma_append_instrs(a0, c0);
                        lemma_push_instr(a0 + c0, x);
                        assert(instrs(a0 + c0).push(x@) =~= instrs(a0) + instrs(c0) + seq![x@]);
                        assert(x@ == ins(if kind_at(tv, q as nat) is Star { Op::Mul } else { Op::Div }, span_of(tv, q as nat)));
                    }
                    parse_term_rest(t, q2, acc)
                },
            }
        },
    }
}

fn parse_unary(t: &Vec<LexerToken>, p: usize) -> (r: Result<(Vec<ParserToken>, usize), (DiagnosticKind, Span)>)
    requires
        p <= t@.len(),
        t@.len() < usize::MAX,
    ensures
        parsed(r) == p_unary(lex_toks(t@), p as nat),
        r is Ok ==> p < r->Ok_0.1 <= t@.len(),
    decreases t@.len() - p, 2nat,
{
    assert(p < t@.len() ==> lex_toks(t@)[p as int] == t@[p as int]@);
    let minus = p < t.len() && matches!(t[p].kind, LexerTokenKind::Minus);
    if minus {
        match parse_unary(t, p + 1) {
            Err(e) => Err(e),
            Ok((c, q)) => {
                let mut c = c;
                let ghost c0 = c@;
                let x = ParserToken { kind: ParserTokenKind::Neg, span: t[p].span };
                c.push(x);
                proof {
                    lemma_push_instr(c0, x);
                    assert(instrs(c0).push(x@) =~= instrs(c0) + seq![x@]);
                }
                Ok((c, q))
            },
        }
    } else {
        parse_primary(t, p)
    }
}

fn parse_primary(t: &Vec<LexerToken>, p: usize) -> (r: Result<(Vec<ParserToken>, usize), (DiagnosticKind, Span)>)
    requires
        p <= t@.len(),
        t@.len() < usize::MAX,
    ensures
        parsed(r) == p_primary(lex_toks(t@), p as nat),
        r is Ok ==> p < r->Ok_0.1 <= t@.len(),
    decreases t@.len() - p, 1nat,
{
    let ghost tv = lex_toks(t@);
    assert(p < t@.len() ==> tv[p as int] == t@[p as int]@);
    if p >= t.len() {
        return Err((DiagnosticKind::UnexpectedToken, span_at_pos(t, p)));
    }
    let span = t[p].span;
    match &t[p].kind {
        LexerTokenKind::Number(n) => {
            let mut v: Vec<ParserToken> = Vec::new();
            v.push(ParserToken { kind: ParserTokenKind::PushConst(*n), span });
            assert(instrs(v@) =~= seq![ins(Op::PushConst(*n), span)]);
            Ok((v, p + 1))
        },
        LexerTokenKind::Str(s) => {
            let mut v: Vec<ParserToken> = Vec::new();
            v.push(ParserToken { kind: ParserTokenKind::PushStr(copy_bytes(s)), span });
            assert(instrs(v@) =~= seq![ins(Op::PushStr(s@), span)]);
            Ok((v, p + 1))
        },
        LexerTokenKind::LParen => {
            match parse_expr(t, p + 1) {
                Err(e) => Err(e),
                Ok((c, q)) => {
                    if q < t.len() && matches!(t[q].kind, LexerTokenKind::RParen) {
                        Ok((c, q + 1))
                    } else {
                        Err((DiagnosticKind::UnclosedParen, span))
                    }
                },
            }
        },
        _ => Err((DiagnosticKind::UnexpectedToken, span)),
    }
}

/// A parser over a token list.
pub struct Parser {
    pub tokens: Vec<LexerToken>,
}

impl Parser {
    pub fn new(tokens: Vec<LexerToken>) -> (r: Parser)
        ensures
            r.tokens@ == tokens@,
    {
        Parser { tokens }
    }

    /// Parses every statement: the program, and one diagnostic for each
    /// statement with a syntax error, labelled with `file` or the default label.
    pub fn parse(self, file: Option<String>) -> (r: (Vec<ParserToken>, Vec<Diagnostic>))
        requires
            self.tokens@.len() < usize::MAX,
        ensures
            instrs(r.0@) == parse_program(lex_toks(self.tokens@)).0,
            diag_model(r.1@) == parse_program(lex_toks(self.tokens@)).1,
            all_labelled(r.1@, label_of(file)),
    {
        let label = label_or_default(file);
        let t = &self.tokens;
        let ghost tv = lex_toks(t@);
        let mut code: Vec<ParserToken> = Vec::new();
        let mut diags: Vec<Diagnostic> = Vec::new();
        let mut p: usize = 0;
        assert(instrs(code@) + parse_program(tv).0 =~= parse_program(tv).0);
        assert(diag_model(diags@) + parse_program(tv).1 =~= parse_program(tv).1);
        loop
            invariant
                tv == lex_toks(t@),
                t@ == self.tokens@,
                t@.len() < usize::MAX,
                p <= t@.len(),
                label@ == label_of(file),
                all_labelled(diags@, label@),
                parse_program(tv).0 == instrs(code@) + p_stmts(tv, p as nat).0,
                parse_program(tv).1 == diag_model(diags@) + p_stmts(tv, p as nat).1,
            decreases t@.len() - p,
        {
            let ghost c0 = code@;
            let ghost d0 = diag_model(diags@);
            assert(p < t@.len() ==> tv[p as int] == t@[p as int]@);
            if p >= t.len() || matches!(t[p].kind, LexerTokenKind::EndOfInput) {
                assert(instrs(code@) + Seq::<Instr>::empty() =~= instrs(code@));
                assert(diag_model(diags@) + Seq::<(DiagnosticKind, Span)>::empty() =~= diag_model(diags@));
                return (code, diags);
            }
            if matches!(t[p].kind, LexerTokenKind::Semicolon) {
                p += 1;
            } else {
                let mut resume: usize = p + 1;
                while resume < t.len() && !matches!(t[resume].kind, LexerTokenKind::Semicolon)
                    && !matches!(t[resume].kind, LexerTokenKind::EndOfInput)
                    invariant
                        tv == lex_toks(t@),
                        p < resume <= t@.len(),
                        stmt_run(tv, (p + 1) as nat) == (resume - p - 1) + stmt_run(tv, resume as nat),
                    decreases t@.len() - resume,
                {
                    assert(tv[resume as int] == t@[resume as int]@);
                    resume += 1;
                }
                assert(resume < t@.len() ==> tv[resume as int] == t@[resume as int]@);
                assert(end_at_tok(tv, (p + 1 + stmt_run(tv, (p + 1) as nat)) as nat) == resume);
                match parse_expr(t, p) {
                    Ok((c, q)) => {
                        assert(q < t@.len() ==> tv[q as int] == t@[q as int]@);
                        if q >= t.len() || matches!(t[q].kind, LexerTokenKind::Semicolon)
                            || matches!(t[q].kind, LexerTokenKind::EndOfInput) {
                            let mut c = c;
                            let ghost cv = c@;
                            code.append(&mut c);
                            proof {
                                lemma_append_instrs(c0, cv);
                                let r = p_stmts(tv, q as nat);
                                assert(instrs(c0) + (instrs(cv) + r.0) =~= instrs(c0) + instrs(cv) + r.0);
                            }
                            p = q;
                        } else {
                            let e = (DiagnosticKind::UnexpectedToken, t[q].span);
                            diags.push(Diagnostic { kind: e.0, span: e.1, file: label.clone() });
                            proof {
                                let r = p_stmts(tv, resume as nat);
                                assert(diag_model(diags@) =~= d0.push(e));
                                assert(d0.push(e) + r.1 =~= d0 + (seq![e] + r.1));
                            }
                            p = resume;
                        }
                    },
                    Err(e) => {
                        diags.push(Diagnostic { kind: e.0, span: e.1, file: label.clone() });
                        proof {
                            let r = p_stmts(tv, resume as nat);
                            assert(diag_model(diags@) =~= d0.push(e));
                            assert(d0.push(e) + r.1 =~= d0 + (seq![e] + r.1));
                        }
                        p = resume;
                    },
                }
            }
        }
    }
}

/// The parse succeeded and moved from `p` to a position no further than `n`.
pub open spec fn advanced(r: Parsed, p: nat, n: nat) -> bool {
    r is Ok ==> p < r->Ok_0.1 <= n
}

/// Each phrase that parses consumes at least one token and stops within the
/// list, so the position checks in the grammar above never fail.
pub proof fn lemma_expr_advances(t: Seq<LexTok>, p: nat)
    requires
        p <= t.len(),
    ensures
        advanced(p_expr(t, p), p, t.len()),
    decreases t.len() - p, 4nat,
{
    lemma_term_advances(t, p);
    match p_term(t, p) {
        Ok((c, q)) => lemma_expr_rest_advances(t, q, c),
        Err(_) => {},
    }
}

proof fn lemma_expr_rest_advances(t: Seq<LexTok>, q: nat, acc: Seq<Instr>)
    requires
        q <= t.len(),
    ensures
        p_expr_rest(t, q, acc) is Ok ==> q <= p_expr_rest(t, q, acc)->Ok_0.1 <= t.len(),
    decreases t.len() - q, 4nat,
{
    if kind_at(t, q) is Plus || kind_at(t, q) is Minus {
        let op = if kind_at(t, q) is Plus {
            Op::Add
        } else {
            Op::Sub
        };
        lemma_term_advances(t, q + 1);
        match p_term(t, q + 1) {
            Ok((c, q2)) => lemma_expr_rest_advances(t, q2, acc + c + seq![ins(op, span_of(t, q))]),
            Err(_) => {},
        }
    }
}

proof fn lemma_term_advances(t: Seq<LexTok>, p: nat)
    requires
        p <= t.len(),
    ensures
        advanced(p_term(t, p), p, t.len()),
    decreases t.len() - p, 3nat,
{
    lemma_unary_advances(t, p);
    match p_unary(t, p) {
        Ok((c, q)) => lemma_term_rest_advances(t, q, c),
        Err(_) => {},
    }
}

proof fn lemma_term_rest_advances(t: Seq<LexTok>, q: nat, acc: Seq<Instr>)
    requires
        q <= t.len(),
    ensures
        p_term_rest(t, q, acc) is Ok ==> q <= p_term_rest(t, q, acc)->Ok_0.1 <= t.len(),
    decreases t.len() - q, 3nat,
{
    if kind_at(t, q) is Star || kind_at(t, q) is Slash {
        let op = if kind_at(t, q) is Star {
            Op::Mul
        } else {
            Op::Div
        };
        lemma_unary_advances(t, q + 1);
        match p_unary(t, q + 1) {
            Ok((c, q2)) => lemma_term_rest_advances(t, q2, acc + c + seq![ins(op, span_of(t, q))]),
            Err(_) => {},
        }
    }
}

proof fn lemma_unary_advances(t: Seq<LexTok>, p: nat)
    requires
        p <= t.len(),
    ensures
        advanced(p_unary(t, p), p, t.len()),
    decreases t.len() - p, 2nat,
{
    if kind_at(t, p) is Minus {
        lemma_unary_advances(t, p + 1);
    } else {
        lemma_primary_advances(t, p);
    }
}

proof fn lemma_primary_advances(t: Seq<LexTok>, p: nat)
    requires
        p <= t.len(),
    ensures
        advanced(p_primary(t, p), p, t.len()),
    decreases t.len() - p, 1nat,
{
    if kind_at(t, p) is LParen {
        lemma_expr_advances(t, p + 1);
    }
}

} // verus!
