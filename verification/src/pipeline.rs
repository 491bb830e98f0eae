//! The whole pipeline in one verified step: lexical analysis, parsing and
//! code generation, with the emitted lines put into top-down order for a
//! writer. Reading the source and writing the assembly file stay with the
//! caller: the pipeline maps plain lines to plain lines.

use vstd::prelude::*;
use crate::lexer::{lex, lex_tokens, line_views};
use crate::ast::{parse, parse_error_seq, msg_views};
use crate::codegen::{mov_line, program_emits, CodeGenState};

verus! {

/// The four lines of the finished assembly text, top to bottom: export
/// directive, label, the `mov` that loads the literal, `ret`. This is the
/// emission order of `program_emits` reversed.
pub open spec fn program_output(lit: Seq<char>) -> Seq<Seq<char>> {
    seq![".globl main"@, "main:"@, mov_line(lit), "ret"@]
}

/// What the pipeline yields for given source lines: the finished assembly
/// when parsing reports nothing, otherwise all the reports in order.
pub open spec fn spec_compile(lines: Seq<Seq<char>>) -> Result<Seq<Seq<char>>, Seq<Seq<char>>> {
    let toks = lex_tokens(lines);
    let errs = parse_error_seq(toks);
    if errs.len() == 0 {
        Ok(
            program_output(
                if 6 < toks.len() {
                    toks[6].text
                } else {
                    Seq::empty()
                },
            ),
        )
    } else {
        Err(errs)
    }
}

/// Whether a run's result carries exactly the lines the specification
/// assigns to its input.
pub open spec fn compile_matches(
    r: Result<Vec<String>, Vec<String>>,
    s: Result<Seq<Seq<char>>, Seq<Seq<char>>>,
) -> bool {
    match r {
        Ok(a) => s is Ok && line_views(a@) == s->Ok_0,
        Err(e) => s is Err && line_views(e@) == s->Err_0,
    }
}

/// The given lines in reverse order.
fn reversed_lines(v: &Vec<String>) -> (r: Vec<String>)
    ensures
        r@.len() == v@.len(),
        forall|i: int| 0 <= i < v@.len() ==> (#[trigger] r@[i])@ == v@[v@.len() - 1 - i]@,
{
    let n = v.len();
    let mut r: Vec<String> = Vec::new();
    let mut k: usize = 0;
    while k < n
        invariant
            n == v@.len(),
            k <= n,
            r@.len() == k,
            forall|i: int| 0 <= i < k ==> (#[trigger] r@[i])@ == v@[n - 1 - i]@,
        decreases n - k,
    {
        r.push(v[n - 1 - k].clone());
        k = k + 1;
    }
    r
}

/// Runs the three stages on the given source lines. On success the result
/// is the finished assembly, top to bottom; on failure it is every report
/// the parser produced, in order, the first of them being the one a
/// driver shows. The result is pinned to `spec_compile`, a function of
/// the lines alone.
pub fn compile(lines: &Vec<String>) -> (r: Result<Vec<String>, Vec<String>>)
    ensures
        compile_matches(r, spec_compile(line_views(lines@))),
{
    let token_list = lex(lines);
    let mut errors: Vec<String> = Vec::new();
    let root = parse(&token_list, &mut errors);
    if errors.len() > 0 {
        proof {
            assert(msg_views(errors@) =~= Seq::<Seq<char>>::empty() + parse_error_seq(
                lex_tokens(line_views(lines@)),
            ));
        }
        return Err(errors);
    }
    proof {
        assert(msg_views(errors@) =~= Seq::<Seq<char>>::empty() + parse_error_seq(
            lex_tokens(line_views(lines@)),
        ));
        assert(parse_error_seq(lex_tokens(line_views(lines@))).len() == 0);
    }
    let code_gen = CodeGenState::new(root);
    let mut emit_stack: Vec<String> = Vec::new();
    code_gen.generate_code(&mut emit_stack);
    let out = reversed_lines(&emit_stack);
    proof {
        let lit = if 6 < lex_tokens(line_views(lines@)).len() {
            lex_tokens(line_views(lines@))[6].text
        } else {
            Seq::<char>::empty()
        };
        assert(line_views(emit_stack@) =~= Seq::<Seq<char>>::empty() + program_emits(lit));
        assert(line_views(out@) =~= program_output(lit));
    }
    Ok(out)
}

/// Law of idempotence: the pipeline's outcome is a function of the source
/// lines alone, so two runs on the same input yield identical output,
/// line for line — each run's result equals `spec_compile` of the input,
/// and that value is one and the same.
pub proof fn lemma_pipeline_deterministic(
    lines: Seq<Seq<char>>,
    r1: Result<Seq<Seq<char>>, Seq<Seq<char>>>,
    r2: Result<Seq<Seq<char>>, Seq<Seq<char>>>,
)
    requires
        r1 == spec_compile(lines),
        r2 == spec_compile(lines),
    ensures
        r1 == r2,
{
}

} // verus!
