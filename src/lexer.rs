//! The lexer: a single left-to-right pass over the source bytes. Malformed
//! input gives a diagnostic and the scan goes on, so one pass reports every
//! lexical error; the token list always ends with one end-of-input token.
use vstd::prelude::*;
use vstd::string::StringSliceAdditionalSpecFns;
use crate::token::{
    Span, Lex, LexTok, LexerToken, LexerTokenKind, Diagnostic, DiagnosticKind, diag_model,
    all_labelled, lex_toks, label_of, label_or_default,
};

verus! {

pub const NEWLINE: u8 = 0x0a;
pub const QUOTE: u8 = 0x22;
pub const HASH: u8 = 0x23;

pub open spec fn is_digit(c: u8) -> bool {
    0x30 <= c <= 0x39
}

pub open spec fn is_space(c: u8) -> bool {
    c == 0x20 || c == 0x09 || c == 0x0d
}

/// The token that a one-byte operator or punctuation mark stands for.
pub open spec fn punct(c: u8) -> Option<Lex> {
    if c == 0x2b {
        Some(Lex::Plus)
    } else if c == 0x2d {
        Some(Lex::Minus)
    } else if c == 0x2a {
        Some(Lex::Star)
    } else if c == 0x2f {
        Some(Lex::Slash)
    } else if c == 0x28 {
        Some(Lex::LParen)
    } else if c == 0x29 {
        Some(Lex::RParen)
    } else if c == 0x3b {
        Some(Lex::Semicolon)
    } else {
        None
    }
}

/// How many digits start at `i`.
pub open spec fn digit_run(s: Seq<u8>, i: nat) -> nat
    decreases s.len() - i,
{
    if i < s.len() && is_digit(s[i as int]) {
        1 + digit_run(s, i + 1)
    } else {
        0
    }
}

/// How many bytes before the end of the line start at `i`.
pub open spec fn comment_run(s: Seq<u8>, i: nat) -> nat
    decreases s.len() - i,
{
    if i < s.len() && s[i as int] != NEWLINE {
        1 + comment_run(s, i + 1)
    } else {
        0
    }
}

/// How many bytes of a string literal's body start at `i`.
pub open spec fn body_run(s: Seq<u8>, i: nat) -> nat
    decreases s.len() - i,
{
    if i < s.len() && s[i as int] != NEWLINE && s[i as int] != QUOTE {
        1 + body_run(s, i + 1)
    } else {
        0
    }
}

/// The decimal value of the digits `s[i..j]`.
pub open spec fn digits_value(s: Seq<u8>, i: int, j: int) -> nat
    decreases j - i,
{
    if j <= i {
        0
    } else {
        digits_value(s, i, j - 1) * 10 + (s[j - 1] - 0x30) as nat
    }
}

/// `j`, or the end of `s` where `j` is past it.
pub open spec fn end_at(s: Seq<u8>, j: nat) -> nat {
    if j <= s.len() {
        j
    } else {
        s.len()
    }
}

pub open spec fn span_at(i: nat, line: nat, col: nat) -> Span {
    Span { line: line as u64, column: col as u64, offset: i as u64 }
}

pub open spec fn tok(kind: Lex, span: Span) -> LexTok {
    LexTok { kind, span }
}

/// The tokens and diagnostics of `s` from byte `i` on, at `line` and `col`.
pub open spec fn lex_from(s: Seq<u8>, i: nat, line: nat, col: nat) -> (
    Seq<LexTok>,
    Seq<(DiagnosticKind, Span)>,
)
    decreases s.len() - i,
{
    if i >= s.len() {
        (seq![tok(Lex::EndOfInput, span_at(i, line, col))], Seq::empty())
    } else {
        let c = s[i as int];
        let here = span_at(i, line, col);
        if c == NEWLINE {
            lex_from(s, i + 1, line + 1, 1)
        } else if is_space(c) {
            lex_from(s, i + 1, line, col + 1)
        } else if c == HASH {
            let j = end_at(s, i + 1 + comment_run(s, i + 1));
            lex_from(s, j, line, (col + (j - i)) as nat)
        } else if is_digit(c) {
            let j = end_at(s, i + 1 + digit_run(s, i + 1));
            let v = digits_value(s, i as int, j as int);
            let r = lex_from(s, j, line, (col + (j - i)) as nat);
            if v <= i64::MAX {
                (seq![tok(Lex::Number(v as i64), here)] + r.0, r.1)
            } else {
                (r.0, seq![(DiagnosticKind::NumberTooLarge, here)] + r.1)
            }
        } else if c == QUOTE {
            let k = end_at(s, i + 1 + body_run(s, i + 1));
            if k < s.len() && s[k as int] == QUOTE {
                let r = lex_from(s, k + 1, line, (col + (k + 1 - i)) as nat);
                (seq![tok(Lex::Str(s.subrange(i + 1 as int, k as int)), here)] + r.0, r.1)
            } else {
                let r = lex_from(s, k, line, (col + (k - i)) as nat);
                (r.0, seq![(DiagnosticKind::UnterminatedString, here)] + r.1)
            }
        } else {
            let r = lex_from(s, i + 1, line, col + 1);
            match punct(c) {
                Some(kind) => (seq![tok(kind, here)] + r.0, r.1),
                None => (r.0, seq![(DiagnosticKind::InvalidCharacter, here)] + r.1),
            }
        }
    }
}

/// The tokens and diagnostics of a whole source.
pub open spec fn lex(s: Seq<u8>) -> (Seq<LexTok>, Seq<(DiagnosticKind, Span)>) {
    lex_from(s, 0, 1, 1)
}

/// `r` after the tokens `t` and diagnostics `d` already produced.
pub open spec fn join(
    t: Seq<LexTok>,
    d: Seq<(DiagnosticKind, Span)>,
    r: (Seq<LexTok>, Seq<(DiagnosticKind, Span)>),
) -> (Seq<LexTok>, Seq<(DiagnosticKind, Span)>) {
    (t + r.0, d + r.1)
}

/// A lexer over a source text.
pub struct Lexer {
    pub source: Vec<u8>,
}

impl Lexer {
    pub fn new(source: &str) -> (r: Lexer)
        ensures
            r.source@ == source.spec_bytes(),
    {
        Lexer { source: vstd::slice::slice_to_vec(source.as_bytes()) }
    }

    /// Scans the whole source: its tokens, ending in one end-of-input token,
    /// and every diagnostic, each labelled with `file` or the default label.
    #[verifier::rlimit(60)]
    pub fn tokenize(self, file: Option<String>) -> (r: (Vec<LexerToken>, Vec<Diagnostic>))
        requires
            self.source@.len() < usize::MAX,
        ensures
            lex_toks(r.0@) == lex(self.source@).0,
            diag_model(r.1@) == lex(self.source@).1,
            all_labelled(r.1@, label_of(file)),
    {
        let label = label_or_default(file);
        let s = &self.source;
        let ghost sv = s@;
        let mut toks: Vec<LexerToken> = Vec::new();
        let mut diags: Vec<Diagnostic> = Vec::new();
        let mut i: usize = 0;
        let mut line: u64 = 1;
        let mut col: u64 = 1;
        assert(join(lex_toks(toks@), diag_model(diags@), lex(sv)) =~= lex(sv));
        while i < s.len()
            invariant
                sv == s@,
                sv.len() < usize::MAX,
                i <= sv.len(),
                1 <= line <= i + 1,
                1 <= col <= i + 1,
                label@ == label_of(file),
                all_labelled(diags@, label@),
                lex(sv) == join(lex_toks(toks@), diag_model(diags@), lex_from(sv, i as nat, line as nat, col as nat)),
            decreases sv.len() - i,
        {
            let ghost t0 = lex_toks(toks@);
            let ghost d0 = diag_model(diags@);
            let c = s[i];
            let here = Span { line, column: col, offset: i as u64 };
            if c == NEWLINE {
                i += 1;
                line += 1;
                col = 1;
            } else if c == 0x20 || c == 0x09 || c == 0x0d {
                i += 1;
                col += 1;
            } else if c == HASH {
                let mut j: usize = i + 1;
                while j < s.len() && s[j] != NEWLINE
                    invariant
                        sv == s@,
                        i < j <= sv.len(),
                        comment_run(sv, (i + 1) as nat) == (j - i - 1) + comment_run(sv, j as nat),
                    decreases sv.len() - j,
                {
                    j += 1;
                }
                col += (j - i) as u64;
                i = j;
            } else if 0x30 <= c && c <= 0x39 {
                let mut j: usize = i + 1;
                let mut value: u64 = (c - 0x30) as u64;
                let mut big = false;
                assert(digits_value(sv, i as int, i + 1) == (c - 0x30) as nat) by {
                    assert(digits_value(sv, i as int, i as int) == 0);
                }
                while j < s.len() && 0x30 <= s[j] && s[j] <= 0x39
                    invariant
                        sv == s@,
                        i < j <= sv.len(),
                        digit_run(sv, (i + 1) as nat) == (j - i - 1) + digit_run(sv, j as nat),
                        !big ==> value == digits_value(sv, i as int, j as int) && value <= i64::MAX,
                        big ==> digits_value(sv, i as int, j as int) > i64::MAX,
                    decreases sv.len() - j,
                {
                    let d = (s[j] - 0x30) as u64;
                    if !big {
                        if value > (0x7fff_ffff_ffff_ffff - d) / 10 {
                            big = true;
                        } else {
                            value = value * 10 + d;
                        }
                    }
                    j += 1;
                }
                let ghost n = j - i;
                let ghost rest = lex_from(sv, j as nat, line as nat, (col + n) as nat);
                if big {
                    diags.push(Diagnostic { kind: DiagnosticKind::NumberTooLarge, span: here, file: label.clone() });
                    proof {
                        assert(diag_model(diags@) =~= d0.push((DiagnosticKind::NumberTooLarge, here)));
                        assert(d0.push((DiagnosticKind::NumberTooLarge, here)) + rest.1 =~= d0 + (seq![(DiagnosticKind::NumberTooLarge, here)] + rest.1));
                    }
                } else {
                    toks.push(LexerToken { kind: LexerTokenKind::Number(value as i64), span: here });
                    proof {
                        let x = tok(Lex::Number(value as i64), here);
                        assert(lex_toks(toks@) =~= t0.push(x));
                        assert(t0.push(x) + rest.0 =~= t0 + (seq![x] + rest.0));
                    }
                }
                col += (j - i) as u64;
                i = j;
            } else if c == QUOTE {
                let mut k: usize = i + 1;
                while k < s.len() && s[k] != NEWLINE && s[k] != QUOTE
                    invariant
                        sv == s@,
                        i < k <= sv.len(),
                        body_run(sv, (i + 1) as nat) == (k - i - 1) + body_run(sv, k as nat),
                    decreases sv.len() - k,
                {
                    k += 1;
                }
                if k < s.len() && s[k] == QUOTE {
                    let mut body: Vec<u8> = Vec::new();
                    let mut m: usize = i + 1;
                    while m < k
                        invariant
                            sv == s@,
                            i < m <= k < sv.len(),
                            body@ == sv.subrange(i + 1, m as int),
                        decreases k - m,
                    {
                        body.push(s[m]);
                        m += 1;
                        assert(body@ =~= sv.subrange(i + 1, m as int));
                    }
                    let ghost rest = lex_from(sv, (k + 1) as nat, line as nat, (col + (k + 1 - i)) as nat);
                    let ghost x = tok(Lex::Str(sv.subrange(i + 1, k as int)), here);
                    toks.push(LexerToken { kind: LexerTokenKind::Str(body), span: here });
                    proof {
                        assert(lex_toks(toks@) =~= t0.push(x));
                        assert(t0.push(x) + rest.0 =~= t0 + (seq![x] + rest.0));
                    }
                    col += (k + 1 - i) as u64;
                    i = k + 1;
                } else {
                    let ghost rest = lex_from(sv, k as nat, line as nat, (col + (k - i)) as nat);
                    diags.push(Diagnostic { kind: DiagnosticKind::UnterminatedString, span: here, file: label.clone() });
                    proof {
                        assert(diag_model(diags@) =~= d0.push((DiagnosticKind::UnterminatedString, here)));
                        assert(d0.push((DiagnosticKind::UnterminatedString, here)) + rest.1 =~= d0 + (seq![(DiagnosticKind::UnterminatedString, here)] + rest.1));
                    }
                    col += (k - i) as u64;
                    i = k;
                }
            } else {
                let ghost rest = lex_from(sv, (i + 1) as nat, line as nat, (col + 1) as nat);
                let kind = if c == 0x2b {
                    Some(LexerTokenKind::Plus)
                } else if c == 0x2d {
                    Some(LexerTokenKind::Minus)
                } else if c == 0x2a {
                    Some(LexerTokenKind::Star)
                } else if c == 0x2f {
                    Some(LexerTokenKind::Slash)
                } else if c == 0x28 {
                    Some(LexerTokenKind::LParen)
                } else if c == 0x29 {
                    Some(LexerTokenKind::RParen)
                } else if c == 0x3b {
                    Some(LexerTokenKind::Semicolon)
                } else {
                    None
                };
                match kind {
                    Some(kind) => {
                        let ghost x = tok(kind@, here);
                        assert(punct(c) == Some(kind@));
                        toks.push(LexerToken { kind, span: here });
                        proof {
                            assert(lex_toks(toks@) =~= t0.push(x));
                            assert(t0.push(x) + rest.0 =~= t0 + (seq![x] + rest.0));
                        }
                    },
                    None => {
                        diags.push(Diagnostic { kind: DiagnosticKind::InvalidCharacter, span: here, file: label.clone() });
                        proof {
                            assert(diag_model(diags@) =~= d0.push((DiagnosticKind::InvalidCharacter, here)));
                            assert(d0.push((DiagnosticKind::InvalidCharacter, here)) + rest.1 =~= d0 + (seq![(DiagnosticKind::InvalidCharacter, here)] + rest.1));
                        }
                    },
                }
                i += 1;
                col += 1;
            }
        }
        let ghost t0 = lex_toks(toks@);
        let end = LexerToken { kind: LexerTokenKind::EndOfInput, span: Span { line, column: col, offset: i as u64 } };
        toks.push(end);
        assert(lex_toks(toks@) =~= t0.push(end@));
        assert(t0 + seq![end@] =~= t0.push(end@));
        assert(diag_model(diags@) + Seq::<(DiagnosticKind, Span)>::empty() =~= diag_model(diags@));
        (toks, diags)
    }
}

/// Exactly one end-of-input token, the last one, ends the tokens of `s` from
/// byte `i` on, and they are at most one more than the bytes left.
pub open spec fn ends_once(r: Seq<LexTok>, left: int) -> bool {
    &&& 1 <= r.len() <= left + 1
    &&& r.last().kind is EndOfInput
    &&& forall|k: int| 0 <= k < r.len() - 1 ==> !(#[trigger] r[k].kind is EndOfInput)
}

proof fn lemma_prepend_ends(x: LexTok, r: Seq<LexTok>, left: int)
    requires
        ends_once(r, left),
        !(x.kind is EndOfInput),
    ensures
        ends_once(seq![x] + r, left + 1),
{
    let q = seq![x] + r;
    assert(q.last() == r.last());
    assert forall|k: int| 0 <= k < q.len() - 1 implies !(#[trigger] q[k].kind is EndOfInput) by {
        if k > 0 {
            assert(q[k] == r[k - 1]);
        }
    }
}

proof fn lemma_lex_from_ends(s: Seq<u8>, i: nat, line: nat, col: nat)
    requires
        i <= s.len(),
    ensures
        ends_once(lex_from(s, i, line, col).0, s.len() - i),
    decreases s.len() - i,
{
    if i < s.len() {
        let c = s[i as int];
        let here = span_at(i, line, col);
        if c == NEWLINE {
            lemma_lex_from_ends(s, i + 1, line + 1, 1);
        } else if is_space(c) {
            lemma_lex_from_ends(s, i + 1, line, col + 1);
        } else if c == HASH {
            let j = end_at(s, i + 1 + comment_run(s, i + 1));
            lemma_lex_from_ends(s, j, line, (col + (j - i)) as nat);
        } else if is_digit(c) {
            let j = end_at(s, i + 1 + digit_run(s, i + 1));
            let v = digits_value(s, i as int, j as int);
            lemma_lex_from_ends(s, j, line, (col + (j - i)) as nat);
            let r = lex_from(s, j, line, (col + (j - i)) as nat);
            if v <= i64::MAX {
                lemma_prepend_ends(tok(Lex::Number(v as i64), here), r.0, s.len() - j);
            }
        } else if c == QUOTE {
            let k = end_at(s, i + 1 + body_run(s, i + 1));
            if k < s.len() && s[k as int] == QUOTE {
                let n = (col + (k + 1 - i)) as nat;
                lemma_lex_from_ends(s, k + 1, line, n);
                let r = lex_from(s, k + 1, line, n);
                lemma_prepend_ends(tok(Lex::Str(s.subrange(i + 1 as int, k as int)), here), r.0, s.len() - k - 1);
            } else {
                lemma_lex_from_ends(s, k, line, (col + (k - i)) as nat);
            }
        } else {
            lemma_lex_from_ends(s, i + 1, line, col + 1);
            let r = lex_from(s, i + 1, line, col + 1);
            match punct(c) {
                Some(kind) => lemma_prepend_ends(tok(kind, here), r.0, s.len() - i - 1),
                None => {},
            }
        }
    }
}

/// Lexing any source, the empty one and one of blanks or comments alone
/// included, ends the token list with exactly one end-of-input token, and
/// gives at most one token more than the source has bytes.
pub proof fn lemma_lex_total(s: Seq<u8>)
    ensures
        ends_once(lex(s).0, s.len() as int),
{
    lemma_lex_from_ends(s, 0, 1, 1);
}

/// The offsets of `r` strictly increase, and none is below `i`.
pub open spec fn offsets_from(r: Seq<LexTok>, i: nat) -> bool {
    &&& forall|k: int| 0 <= k < r.len() ==> i <= (#[trigger] r[k]).span.offset
    &&& forall|k: int, m: int| 0 <= k < m < r.len() ==> (#[trigger] r[k]).span.offset < (
    #[trigger] r[m]).span.offset
}

proof fn lemma_prepend_offsets(x: LexTok, r: Seq<LexTok>, i: nat, j: nat)
    requires
        offsets_from(r, j),
        x.span.offset == i,
        i < j,
    ensures
        offsets_from(seq![x] + r, i),
{
    let q = seq![x] + r;
    assert forall|k: int| 0 <= k < q.len() implies i <= (#[trigger] q[k]).span.offset by {
        if k > 0 {
            assert(q[k] == r[k - 1]);
        }
    }
    assert forall|k: int, m: int| 0 <= k < m < q.len() implies (#[trigger] q[k]).span.offset < (
    #[trigger] q[m]).span.offset by {
        assert(q[m] == r[m - 1]);
        if k > 0 {
            assert(q[k] == r[k - 1]);
        }
    }
}

proof fn lemma_offsets_weaken(r: Seq<LexTok>, i: nat, j: nat)
    requires
        offsets_from(r, j),
        i <= j,
    ensures
        offsets_from(r, i),
{
}

proof fn lemma_lex_from_offsets(s: Seq<u8>, i: nat, line: nat, col: nat)
    requires
        i <= s.len(),
        s.len() <= u64::MAX,
    ensures
        offsets_from(lex_from(s, i, line, col).0, i),
    decreases s.len() - i,
{
    if i < s.len() {
        let c = s[i as int];
        let here = span_at(i, line, col);
        if c == NEWLINE {
            lemma_lex_from_offsets(s, i + 1, line + 1, 1);
            lemma_offsets_weaken(lex_from(s, i + 1, line + 1, 1).0, i, i + 1);
        } else if is_space(c) {
            lemma_lex_from_offsets(s, i + 1, line, col + 1);
            lemma_offsets_weaken(lex_from(s, i + 1, line, col + 1).0, i, i + 1);
        } else if c == HASH {
            let j = end_at(s, i + 1 + comment_run(s, i + 1));
            lemma_lex_from_offsets(s, j, line, (col + (j - i)) as nat);
            lemma_offsets_weaken(lex_from(s, j, line, (col + (j - i)) as nat).0, i, j);
        } else if is_digit(c) {
            let j = end_at(s, i + 1 + digit_run(s, i + 1));
            let v = digits_value(s, i as int, j as int);
            lemma_lex_from_offsets(s, j, line, (col + (j - i)) as nat);
            let r = lex_from(s, j, line, (col + (j - i)) as nat);
            if v <= i64::MAX {
                lemma_prepend_offsets(tok(Lex::Number(v as i64), here), r.0, i, j);
            } else {
                lemma_offsets_weaken(r.0, i, j);
            }
        } else if c == QUOTE {
            let k = end_at(s, i + 1 + body_run(s, i + 1));
            if k < s.len() && s[k as int] == QUOTE {
                let n = (col + (k + 1 - i)) as nat;
                lemma_lex_from_offsets(s, k + 1, line, n);
                let r = lex_from(s, k + 1, line, n);
                lemma_prepend_offsets(tok(Lex::Str(s.subrange(i + 1 as int, k as int)), here), r.0, i, k + 1);
            } else {
                lemma_lex_from_offsets(s, k, line, (col + (k - i)) as nat);
                lemma_offsets_weaken(lex_from(s, k, line, (col + (k - i)) as nat).0, i, k);
            }
        } else {
            lemma_lex_from_offsets(s, i + 1, line, col + 1);
            let r = lex_from(s, i + 1, line, col + 1);
            match punct(c) {
                Some(kind) => lemma_prepend_offsets(tok(kind, here), r.0, i, i + 1),
                None => lemma_offsets_weaken(r.0, i, i + 1),
            }
        }
    }
}

/// The byte offsets of the tokens of a source strictly increase from one
/// token to the next.
pub proof fn lemma_lex_offsets_increase(s: Seq<u8>)
    requires
        s.len() <= u64::MAX,
    ensures
        forall|k: int, m: int| 0 <= k < m < lex(s).0.len() ==> (#[trigger] lex(s).0[k]).span.offset < (
        #[trigger] lex(s).0[m]).span.offset,
{
    lemma_lex_from_offsets(s, 0, 1, 1);
}

} // verus!
