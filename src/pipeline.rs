//! Source text to program in one call, with the diagnostics of both stages.
use vstd::prelude::*;
use vstd::string::StringSliceAdditionalSpecFns;
use crate::token::{ParserToken, Diagnostic, diag_model, all_labelled, lex_toks, instrs, label_of, label_or_default};
use crate::lexer::{Lexer, lex, lemma_lex_total};
use crate::parser::{Parser, parse_program};

verus! {

/// Lexes and parses `source`. Every diagnostic of either stage reaches the
/// caller: the lexer's, in order, then the parser's, all labelled with `file`
/// or the default label.
pub fn compile(source: &str, file: Option<String>) -> (r: (Vec<ParserToken>, Vec<Diagnostic>))
    requires
        source.spec_bytes().len() < usize::MAX - 1,
    ensures
        instrs(r.0@) == parse_program(lex(source.spec_bytes()).0).0,
        diag_model(r.1@) == lex(source.spec_bytes()).1 + parse_program(lex(source.spec_bytes()).0).1,
        all_labelled(r.1@, label_of(file)),
{
    let label = label_or_default(file);
    let lexer = Lexer::new(source);
    let (toks, lex_diags) = lexer.tokenize(Some(label.clone()));
    proof {
        lemma_lex_total(source.spec_bytes());
        assert(lex_toks(toks@).len() == toks@.len());
    }
    let (code, parse_diags) = Parser::new(toks).parse(Some(label));
    let mut diags = lex_diags;
    let mut more = parse_diags;
    let ghost d1 = diags@;
    let ghost d2 = more@;
    diags.append(&mut more);
    proof {
        assert(diag_model(d1 + d2) =~= diag_model(d1) + diag_model(d2));
        assert forall|k: int| 0 <= k < diags@.len() implies (#[trigger] diags@[k]).file@ == label_of(file) by {
            if k >= d1.len() {
                assert(diags@[k] == d2[k - d1.len()]);
            }
        }
    }
    (code, diags)
}

} // verus!
