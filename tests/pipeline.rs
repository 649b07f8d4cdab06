use tr_lang::bytecode::{from_bytes, to_bytes, CodecError};
use tr_lang::lexer::Lexer;
use tr_lang::parser::Parser;
use tr_lang::pipeline::compile;
use tr_lang::runtime::{FaultKind, Run, Value};
use tr_lang::token::{
    DiagnosticKind, LexerToken, LexerTokenKind, ParserToken, ParserTokenKind, Span,
};

fn kinds(toks: &[LexerToken]) -> Vec<LexerTokenKind> {
    toks.iter().map(|t| t.kind.clone()).collect()
}

fn ops(code: &[ParserToken]) -> Vec<ParserTokenKind> {
    code.iter().map(|t| t.inner()).collect()
}

fn span(line: u64, column: u64, offset: u64) -> Span {
    Span { line, column, offset }
}

fn run_source(src: &str) -> Result<Vec<Value>, tr_lang::runtime::Fault> {
    let (code, diags) = compile(src, None);
    assert!(diags.is_empty());
    Run::new(code).run(None)
}

#[test]
fn arithmetic_literal_scenario() {
    let (toks, diags) = Lexer::new("1 + 2").tokenize(None);
    assert!(diags.is_empty());
    assert_eq!(
        kinds(&toks),
        vec![
            LexerTokenKind::Number(1),
            LexerTokenKind::Plus,
            LexerTokenKind::Number(2),
            LexerTokenKind::EndOfInput
        ]
    );
    let (code, pdiags) = Parser::new(toks).parse(None);
    assert!(pdiags.is_empty());
    assert_eq!(
        ops(&code),
        vec![
            ParserTokenKind::PushConst(1),
            ParserTokenKind::PushConst(2),
            ParserTokenKind::Add
        ]
    );
    let back = from_bytes(&to_bytes(&code)).unwrap();
    assert_eq!(ops(&back), ops(&code));
    assert_eq!(back, code);
    assert_eq!(Run::new(back).run(None), Ok(vec![Value::Int(3)]));
}

#[test]
fn empty_source_scenario() {
    let (toks, diags) = Lexer::new("").tokenize(None);
    assert!(diags.is_empty());
    assert_eq!(kinds(&toks), vec![LexerTokenKind::EndOfInput]);
    assert_eq!(toks[0].span, span(1, 1, 0));
    let (code, pdiags) = Parser::new(toks).parse(None);
    assert!(code.is_empty());
    assert!(pdiags.is_empty());
    assert_eq!(Run::new(code).run(None), Ok(vec![]));
}

#[test]
fn blanks_and_comments_give_one_end_token() {
    let (toks, diags) = Lexer::new("  \t\r\n# only a comment\n   # another").tokenize(None);
    assert!(diags.is_empty());
    assert_eq!(kinds(&toks), vec![LexerTokenKind::EndOfInput]);
    assert_eq!(toks[0].span, span(3, 13, 34));
}

#[test]
fn unterminated_string_scenario() {
    let (toks, diags) = Lexer::new("x = \"abc\n1").tokenize(Some("main.tr".to_string()));
    assert_eq!(diags.len(), 3);
    assert_eq!(diags[0].kind, DiagnosticKind::InvalidCharacter);
    assert_eq!(diags[1].kind, DiagnosticKind::InvalidCharacter);
    assert_eq!(diags[2].kind, DiagnosticKind::UnterminatedString);
    assert_eq!(diags[2].span, span(1, 5, 4));
    assert_eq!(diags[2].file, "main.tr");
    assert_eq!(
        kinds(&toks),
        vec![LexerTokenKind::Number(1), LexerTokenKind::EndOfInput]
    );
    assert_eq!(toks[0].span, span(2, 1, 9));
}

#[test]
fn malformed_bytecode_scenario() {
    assert_eq!(from_bytes(&[0x7f, 0x45, 0x4c, 0x46, 0, 0, 0, 0, 0, 0, 0, 0]), Err(CodecError::BadTag));
    assert_eq!(from_bytes(&[]), Err(CodecError::BadTag));
    assert_eq!(from_bytes(&[0x54, 0x52, 0x42, 2, 0, 0, 0, 0, 0, 0, 0, 0]), Err(CodecError::BadTag));
}

#[test]
fn image_layout() {
    let code = vec![ParserToken { kind: ParserTokenKind::PushConst(-2), span: span(1, 2, 3) }];
    let bytes = to_bytes(&code);
    let mut want = vec![0x54, 0x52, 0x42, 1, 1, 0, 0, 0, 0, 0, 0, 0, 0];
    want.extend_from_slice(&[1, 0, 0, 0, 0, 0, 0, 0]);
    want.extend_from_slice(&[2, 0, 0, 0, 0, 0, 0, 0]);
    want.extend_from_slice(&[3, 0, 0, 0, 0, 0, 0, 0]);
    want.extend_from_slice(&[0xfe, 0xff, 0xff, 0xff, 0xff, 0xff, 0xff, 0xff]);
    assert_eq!(bytes, want);
    assert_eq!(to_bytes(&vec![]), vec![0x54, 0x52, 0x42, 1, 0, 0, 0, 0, 0, 0, 0, 0]);
}

fn sample_program() -> Vec<ParserToken> {
    vec![
        ParserToken { kind: ParserTokenKind::PushConst(i64::MIN), span: span(1, 1, 0) },
        ParserToken { kind: ParserTokenKind::PushConst(i64::MAX), span: span(2, 7, 40) },
        ParserToken { kind: ParserTokenKind::PushStr(b"hi there".to_vec()), span: span(3, 1, 50) },
        ParserToken { kind: ParserTokenKind::PushStr(vec![]), span: span(3, 9, 58) },
        ParserToken { kind: ParserTokenKind::Add, span: span(4, 1, 60) },
        ParserToken { kind: ParserTokenKind::Sub, span: span(4, 2, 61) },
        ParserToken { kind: ParserTokenKind::Mul, span: span(4, 3, 62) },
        ParserToken { kind: ParserTokenKind::Div, span: span(4, 4, 63) },
        ParserToken { kind: ParserTokenKind::Neg, span: span(u64::MAX, u64::MAX, u64::MAX) },
    ]
}

#[test]
fn round_trip_keeps_every_instruction_and_span() {
    let p = sample_program();
    assert_eq!(from_bytes(&to_bytes(&p)), Ok(p.clone()));
    let empty: Vec<ParserToken> = vec![];
    assert_eq!(from_bytes(&to_bytes(&empty)), Ok(empty));
}

#[test]
fn every_strict_prefix_of_an_image_fails() {
    let bytes = to_bytes(&sample_program());
    for n in 0..bytes.len() {
        let r = from_bytes(&bytes[..n]);
        assert!(r.is_err(), "prefix of {} bytes decoded", n);
        if n < 4 {
            assert_eq!(r, Err(CodecError::BadTag));
        } else {
            assert_eq!(r, Err(CodecError::Truncated));
        }
    }
}

#[test]
fn unknown_opcode_and_trailing_bytes() {
    let mut bytes = vec![0x54, 0x52, 0x42, 1, 1, 0, 0, 0, 0, 0, 0, 0];
    bytes.push(9);
    bytes.extend_from_slice(&[0; 24]);
    assert_eq!(from_bytes(&bytes), Err(CodecError::UnknownOpcode));
    let mut extra = to_bytes(&sample_program());
    extra.push(0);
    assert_eq!(from_bytes(&extra), Err(CodecError::TrailingBytes));
}

#[test]
fn string_length_past_the_end_is_truncated() {
    let mut bytes = vec![0x54, 0x52, 0x42, 1, 1, 0, 0, 0, 0, 0, 0, 0];
    bytes.push(1);
    bytes.extend_from_slice(&[0; 24]);
    bytes.extend_from_slice(&[0xff, 0xff, 0xff, 0xff, 0xff, 0xff, 0xff, 0xff]);
    bytes.extend_from_slice(b"abc");
    assert_eq!(from_bytes(&bytes), Err(CodecError::Truncated));
}

#[test]
fn running_twice_gives_the_same_outcome() {
    let (code, _) = compile("1 + 2; \"a\" + \"b\"; 7 / 2", None);
    let first = Run::new(code.clone()).run(None);
    let second = Run::new(code).run(None);
    assert_eq!(first, second);
    assert_eq!(
        first,
        Ok(vec![Value::Int(3), Value::Str(b"ab".to_vec()), Value::Int(3)])
    );
    let (bad, _) = compile("1; 2 / 0", None);
    assert_eq!(Run::new(bad.clone()).run(None), Run::new(bad).run(None));
}

#[test]
fn decoded_program_runs_like_the_parsed_one() {
    let (code, _) = compile("(1 + 2) * -3; \"x\" + \"y\"", None);
    let decoded = from_bytes(&to_bytes(&code)).unwrap();
    assert_eq!(Run::new(code).run(None), Run::new(decoded).run(None));
}

#[test]
fn precedence_and_grouping() {
    assert_eq!(run_source("1 + 2 * 3"), Ok(vec![Value::Int(7)]));
    assert_eq!(run_source("(1 + 2) * 3"), Ok(vec![Value::Int(9)]));
    assert_eq!(run_source("10 - 4 - 3"), Ok(vec![Value::Int(3)]));
    assert_eq!(run_source("-7 / 2"), Ok(vec![Value::Int(-3)]));
    assert_eq!(run_source("- -5"), Ok(vec![Value::Int(5)]));
    let (code, _) = compile("1 + 2 * 3", None);
    assert_eq!(
        ops(&code),
        vec![
            ParserTokenKind::PushConst(1),
            ParserTokenKind::PushConst(2),
            ParserTokenKind::PushConst(3),
            ParserTokenKind::Mul,
            ParserTokenKind::Add
        ]
    );
    assert_eq!(code[3].span, span(1, 7, 6));
    assert_eq!(code[4].span, span(1, 3, 2));
}

#[test]
fn runtime_faults_carry_kind_span_and_label() {
    let (code, _) = compile("1;\n 8 / 0", None);
    let f = Run::new(code).run(Some("calc".to_string())).unwrap_err();
    assert_eq!(f.kind, FaultKind::DivisionByZero);
    assert_eq!(f.span, span(2, 4, 6));
    assert_eq!(f.file, "calc");
    let f = run_source("\"a\" * 2").unwrap_err();
    assert_eq!(f.kind, FaultKind::TypeMismatch);
    assert_eq!(f.file, "<source>");
    assert_eq!(run_source("\"a\" + 1").unwrap_err().kind, FaultKind::TypeMismatch);
    assert_eq!(run_source("-\"a\"").unwrap_err().kind, FaultKind::TypeMismatch);
    assert_eq!(run_source("9223372036854775807 + 1").unwrap_err().kind, FaultKind::Overflow);
    assert_eq!(run_source("0 - 9223372036854775807 - 2").unwrap_err().kind, FaultKind::Overflow);
    assert_eq!(run_source("-(0 - 9223372036854775807 - 1)").unwrap_err().kind, FaultKind::Overflow);
    assert_eq!(run_source("(0 - 9223372036854775807 - 1) / -1").unwrap_err().kind, FaultKind::Overflow);
    assert_eq!(run_source("4294967296 * 4294967296").unwrap_err().kind, FaultKind::Overflow);
    let under = vec![ParserToken { kind: ParserTokenKind::Add, span: span(5, 5, 5) }];
    let f = Run::new(under).run(None).unwrap_err();
    assert_eq!(f.kind, FaultKind::StackUnderflow);
    assert_eq!(f.span, span(5, 5, 5));
    let neg = vec![ParserToken { kind: ParserTokenKind::Neg, span: span(1, 1, 0) }];
    assert_eq!(Run::new(neg).run(None).unwrap_err().kind, FaultKind::StackUnderflow);
}

#[test]
fn lexer_reports_every_error_and_goes_on() {
    let (toks, diags) = Lexer::new("@ 99999999999999999999 $ 4").tokenize(None);
    let got: Vec<(DiagnosticKind, Span)> = diags.iter().map(|d| (d.kind, d.span)).collect();
    assert_eq!(
        got,
        vec![
            (DiagnosticKind::InvalidCharacter, span(1, 1, 0)),
            (DiagnosticKind::NumberTooLarge, span(1, 3, 2)),
            (DiagnosticKind::InvalidCharacter, span(1, 24, 23)),
        ]
    );
    assert!(diags.iter().all(|d| d.file == "<source>"));
    assert_eq!(kinds(&toks), vec![LexerTokenKind::Number(4), LexerTokenKind::EndOfInput]);
    assert_eq!(diags[0].message(), "invalid character");
    assert_eq!(diags[1].message(), "integer literal too large");
}

#[test]
fn lexer_reads_every_token_kind() {
    let (toks, diags) = Lexer::new("(9223372036854775807)*/;-\"q\"").tokenize(None);
    assert!(diags.is_empty());
    assert_eq!(
        kinds(&toks),
        vec![
            LexerTokenKind::LParen,
            LexerTokenKind::Number(i64::MAX),
            LexerTokenKind::RParen,
            LexerTokenKind::Star,
            LexerTokenKind::Slash,
            LexerTokenKind::Semicolon,
            LexerTokenKind::Minus,
            LexerTokenKind::Str(b"q".to_vec()),
            LexerTokenKind::EndOfInput
        ]
    );
    assert_eq!(toks[7].span, span(1, 26, 25));
    assert_eq!(toks[8].span, span(1, 29, 28));
}

#[test]
fn parser_recovers_at_statement_boundaries() {
    let (code, diags) = compile("1 +; 2; (3 ; 4 5; 6", Some("p".to_string()));
    let got: Vec<(DiagnosticKind, Span)> = diags.iter().map(|d| (d.kind, d.span)).collect();
    assert_eq!(
        got,
        vec![
            (DiagnosticKind::UnexpectedToken, span(1, 4, 3)),
            (DiagnosticKind::UnclosedParen, span(1, 9, 8)),
            (DiagnosticKind::UnexpectedToken, span(1, 16, 15)),
        ]
    );
    assert!(diags.iter().all(|d| d.file == "p"));
    assert_eq!(ops(&code), vec![ParserTokenKind::PushConst(2), ParserTokenKind::PushConst(6)]);
    assert_eq!(diags[1].message(), "unclosed parenthesis");
}

#[test]
fn compile_keeps_lexer_and_parser_diagnostics() {
    let (code, diags) = compile("\"open\n1 + ;", None);
    let got: Vec<DiagnosticKind> = diags.iter().map(|d| d.kind).collect();
    assert_eq!(got, vec![DiagnosticKind::UnterminatedString, DiagnosticKind::UnexpectedToken]);
    assert!(code.is_empty());
    assert_eq!(diags[0].message(), "unterminated string literal");
    assert_eq!(diags[1].message(), "unexpected token");
}

#[test]
fn parser_reads_a_list_without_end_token_as_ended() {
    let toks = vec![
        LexerToken { kind: LexerTokenKind::Number(5), span: span(1, 1, 0) },
        LexerToken { kind: LexerTokenKind::Minus, span: span(1, 2, 1) },
        LexerToken { kind: LexerTokenKind::Number(1), span: span(1, 3, 2) },
    ];
    let (code, diags) = Parser::new(toks).parse(None);
    assert!(diags.is_empty());
    assert_eq!(
        ops(&code),
        vec![ParserTokenKind::PushConst(5), ParserTokenKind::PushConst(1), ParserTokenKind::Sub]
    );
    let dangling = vec![LexerToken { kind: LexerTokenKind::Plus, span: span(1, 1, 0) }];
    let (code, diags) = Parser::new(dangling).parse(None);
    assert!(code.is_empty());
    assert_eq!(diags[0].kind, DiagnosticKind::UnexpectedToken);
    assert_eq!(diags[0].span, span(1, 1, 0));
    assert_eq!(diags[0].file, "<source>");
}

#[test]
fn inner_gives_the_instruction_without_its_span() {
    let t = ParserToken { kind: ParserTokenKind::PushStr(b"z".to_vec()), span: span(2, 2, 2) };
    assert_eq!(t.inner(), ParserTokenKind::PushStr(b"z".to_vec()));
    let u = ParserToken { kind: ParserTokenKind::Neg, span: span(9, 9, 9) };
    assert_eq!(u.inner(), ParserTokenKind::Neg);
}
