use vstd::prelude::*;

verus! {

/// A position in source text: 1-based line and column, 0-based byte offset.
#[derive(Clone, Copy, Debug, PartialEq, Eq, Structural)]
pub struct Span {
    pub line: u64,
    pub column: u64,
    pub offset: u64,
}

/// The category of a lexical token, with its value where it carries one.
#[derive(Clone, Debug, PartialEq, Eq)]
pub enum LexerTokenKind {
    Number(i64),
    Str(Vec<u8>),
    Plus,
    Minus,
    Star,
    Slash,
    LParen,
    RParen,
    Semicolon,
    EndOfInput,
}

/// One lexical unit of source text.
#[derive(Clone, Debug, PartialEq, Eq)]
pub struct LexerToken {
    pub kind: LexerTokenKind,
    pub span: Span,
}

/// The mathematical model of a `LexerTokenKind`.
pub enum Lex {
    Number(i64),
    Str(Seq<u8>),
    Plus,
    Minus,
    Star,
    Slash,
    LParen,
    RParen,
    Semicolon,
    EndOfInput,
}

/// The mathematical model of a `LexerToken`.
pub struct LexTok {
    pub kind: Lex,
    pub span: Span,
}

impl View for LexerTokenKind {
    type V = Lex;

    open spec fn view(&self) -> Lex {
        match self {
            LexerTokenKind::Number(n) => Lex::Number(*n),
            LexerTokenKind::Str(s) => Lex::Str(s@),
            LexerTokenKind::Plus => Lex::Plus,
            LexerTokenKind::Minus => Lex::Minus,
            LexerTokenKind::Star => Lex::Star,
            LexerTokenKind::Slash => Lex::Slash,
            LexerTokenKind::LParen => Lex::LParen,
            LexerTokenKind::RParen => Lex::RParen,
            LexerTokenKind::Semicolon => Lex::Semicolon,
            LexerTokenKind::EndOfInput => Lex::EndOfInput,
        }
    }
}

impl View for LexerToken {
    type V = LexTok;

    open spec fn view(&self) -> LexTok {
        LexTok { kind: self.kind@, span: self.span }
    }
}

/// The model of a sequence of lexical tokens.
pub open spec fn lex_toks(s: Seq<LexerToken>) -> Seq<LexTok> {
    s.map_values(|t: LexerToken| t@)
}

/// An instruction of the flat stack-machine program.
#[derive(Clone, Debug, PartialEq, Eq)]
pub enum ParserTokenKind {
    PushConst(i64),
    PushStr(Vec<u8>),
    Add,
    Sub,
    Mul,
    Div,
    Neg,
}

/// One instruction of a program, with the span of the source it came from.
#[derive(Clone, Debug, PartialEq, Eq)]
pub struct ParserToken {
    pub kind: ParserTokenKind,
    pub span: Span,
}

/// The mathematical model of a `ParserTokenKind`.
pub enum Op {
    PushConst(i64),
    PushStr(Seq<u8>),
    Add,
    Sub,
    Mul,
    Div,
    Neg,
}

/// The mathematical model of a `ParserToken`.
pub struct Instr {
    pub op: Op,
    pub span: Span,
}

impl View for ParserTokenKind {
    type V = Op;

    open spec fn view(&self) -> Op {
        match self {
            ParserTokenKind::PushConst(n) => Op::PushConst(*n),
            ParserTokenKind::PushStr(s) => Op::PushStr(s@),
            ParserTokenKind::Add => Op::Add,
            ParserTokenKind::Sub => Op::Sub,
            ParserTokenKind::Mul => Op::Mul,
            ParserTokenKind::Div => Op::Div,
            ParserTokenKind::Neg => Op::Neg,
        }
    }
}

impl View for ParserToken {
    type V = Instr;

    open spec fn view(&self) -> Instr {
        Instr { op: self.kind@, span: self.span }
    }
}

/// The model of a program.
pub open spec fn instrs(s: Seq<ParserToken>) -> Seq<Instr> {
    s.map_values(|t: ParserToken| t@)
}

/// A copy of a byte vector with the same contents.
pub fn copy_bytes(b: &Vec<u8>) -> (r: Vec<u8>)
    ensures
        r@ == b@,
{
    let r = b.clone();
    assert(r@ =~= b@);
    r
}

impl ParserTokenKind {
    /// A copy of this instruction.
    pub fn duplicate(&self) -> (r: ParserTokenKind)
        ensures
            r@ == self@,
    {
        match self {
            ParserTokenKind::PushConst(n) => ParserTokenKind::PushConst(*n),
            ParserTokenKind::PushStr(s) => ParserTokenKind::PushStr(copy_bytes(s)),
            ParserTokenKind::Add => ParserTokenKind::Add,
            ParserTokenKind::Sub => ParserTokenKind::Sub,
            ParserTokenKind::Mul => ParserTokenKind::Mul,
            ParserTokenKind::Div => ParserTokenKind::Div,
            ParserTokenKind::Neg => ParserTokenKind::Neg,
        }
    }
}

impl ParserToken {
    /// The instruction without its span: two programs are decode-equivalent
    /// when their instructions agree one for one.
    pub fn inner(&self) -> (r: ParserTokenKind)
        ensures
            r@ == self.kind@,
    {
        self.kind.duplicate()
    }
}

} // verus!

verus! {

/// The label that diagnostics carry when the caller gives none.
pub open spec fn default_label() -> Seq<char> {
    "<source>"@
}

/// The label given, or the default one.
pub open spec fn label_of(file: Option<String>) -> Seq<char> {
    match file {
        Some(s) => s@,
        None => default_label(),
    }
}

/// The label given, or the default one.
pub fn label_or_default(file: Option<String>) -> (r: String)
    ensures
        r@ == label_of(file),
{
    match file {
        Some(s) => s,
        None => "<source>".to_owned(),
    }
}

} // verus!

verus! {

/// What a diagnostic reports.
#[derive(Clone, Copy, Debug, PartialEq, Eq, Structural)]
pub enum DiagnosticKind {
    /// A byte that starts no token.
    InvalidCharacter,
    /// A string literal with no closing quote on its line.
    UnterminatedString,
    /// An integer literal above `i64::MAX`.
    NumberTooLarge,
    /// A token where the grammar allows none of its kind.
    UnexpectedToken,
    /// An opening parenthesis with no matching closing one.
    UnclosedParen,
}

/// A diagnostic: its kind, where it points, and the label of the source.
#[derive(Clone, Debug, PartialEq, Eq)]
pub struct Diagnostic {
    pub kind: DiagnosticKind,
    pub span: Span,
    pub file: String,
}

/// The model of a diagnostic list: each one's kind and span.
pub open spec fn diag_model(s: Seq<Diagnostic>) -> Seq<(DiagnosticKind, Span)> {
    s.map_values(|d: Diagnostic| (d.kind, d.span))
}

/// Every diagnostic of `s` carries the label `label`.
pub open spec fn all_labelled(s: Seq<Diagnostic>, label: Seq<char>) -> bool {
    forall|k: int| 0 <= k < s.len() ==> (#[trigger] s[k]).file@ == label
}

/// The text that describes a diagnostic of kind `k`.
pub open spec fn message_of(k: DiagnosticKind) -> Seq<char> {
    match k {
        DiagnosticKind::InvalidCharacter => "invalid character"@,
        DiagnosticKind::UnterminatedString => "unterminated string literal"@,
        DiagnosticKind::NumberTooLarge => "integer literal too large"@,
        DiagnosticKind::UnexpectedToken => "unexpected token"@,
        DiagnosticKind::UnclosedParen => "unclosed parenthesis"@,
    }
}

impl Diagnostic {
    /// A human-readable description of the diagnostic's kind.
    pub fn message(&self) -> (r: &'static str)
        ensures
            r@ == message_of(self.kind),
    {
        match self.kind {
            DiagnosticKind::InvalidCharacter => "invalid character",
            DiagnosticKind::UnterminatedString => "unterminated string literal",
            DiagnosticKind::NumberTooLarge => "integer literal too large",
            DiagnosticKind::UnexpectedToken => "unexpected token",
            DiagnosticKind::UnclosedParen => "unclosed parenthesis",
        }
    }
}

} // verus!
