//! The compiler's steps put together: source text to a checked program, a
//! program to its graph, and a graph to code.
use vstd::prelude::*;
use crate::error::{CompileError, CompileErrorV};
use crate::grammar::parse_tokens;
use crate::lexer::{Lexer, lex, law_lex_ends_with_eof};
use crate::parser::Parser;
use crate::semantics::{Semantics, analyse};
use crate::stmt::{Stmt, StmtV, stmts_view};
use crate::text::{trim_start, trimmed_start};
use crate::cfg::{
    FunctionCFG, all_jumps_in_loops, all_jumps_ok, term_targets, reachable, kept, lemma_kept_ids_ordered, lemma_wf_gen_ready,
    reach_keep, kept_places, lemma_kept_places, lemma_reach_same, retarget, block_ids,
};
use crate::lowering::{graph_view, lower_function};
use crate::liveliness::{dce_from, live_solution, live_within, term_reads};
use crate::codgen::{Bytecode, CodeGen, bodies_ok, code_view, cfg_code};
use crate::liveliness::Liveliness;
use crate::error::{SemanticError, SemanticErrorV};

verus! {

/// What the front end makes of a source text: the program, or the first
/// error that lexing, parsing or semantic analysis finds. Leading
/// whitespace of the text is dropped first.
pub open spec fn front_end(source: Seq<char>) -> Result<Seq<StmtV>, CompileErrorV> {
    match lex(trim_start(source)) {
        Err(e) => Err(CompileErrorV::Lexer(e)),
        Ok(toks) => match parse_tokens(toks) {
            Err(e) => Err(CompileErrorV::Parser(e)),
            Ok(ast) => match analyse(ast) {
                Err(e) => Err(CompileErrorV::Semantic(e)),
                Ok(_) => Ok(ast),
            },
        },
    }
}

/// Lexes, parses and checks a source text.
pub fn check_source(source: &str) -> (r: Result<Vec<Stmt>, CompileError>)
    ensures
        match front_end(source@) {
            Ok(ast) => r is Ok && stmts_view(r->Ok_0@) == ast,
            Err(e) => r is Err && r->Err_0@ == e,
        },
{
    let text = trimmed_start(source);
    proof {
        law_lex_ends_with_eof(text@);
    }
    let lexer = Lexer::new(text.as_str());
    let tokens = match lexer.tokenise() {
        Ok(t) => t,
        Err(e) => return Err(e),
    };
    let mut parser = Parser::new(tokens);
    let ast = match parser.parse() {
        Ok(a) => a,
        Err(e) => return Err(e),
    };
    let mut sem = Semantics::new();
    match sem.run(&ast) {
        Ok(()) => Ok(ast),
        Err(e) => Err(e),
    }
}


/// A request to compile a program: its source text.
pub struct CompileRequest {
    pub source: String,
}

/// Turns a checked program into the control-flow graph of a function
/// `main`. A program with a `break` or `continue` outside a loop of its own
/// function is refused with `BreakOutsideLoop`.
pub fn lower_program(ast: &Vec<Stmt>) -> (r: Result<FunctionCFG, CompileError>)
    ensures
        all_jumps_in_loops(stmts_view(ast@), false, 0) <==> r is Ok,
        r is Ok ==> r->Ok_0.wf() && graph_view(r->Ok_0) == lower_function("main"@, Seq::empty(), Seq::empty(), stmts_view(ast@)),
        r is Err ==> r->Err_0@ == CompileErrorV::Semantic(SemanticErrorV::BreakOutsideLoop),
{
    if !all_jumps_ok(ast, false, 0) {
        return Err(CompileError::Semantic(SemanticError::BreakOutsideLoop));
    }
    Ok(FunctionCFG::from_ast("main".to_owned(), ast))
}

/// What the back end leaves of a well-formed graph `cfg`: the blocks that
/// can be reached from the entry, in order, numbered by their place, each
/// with its dead assignments removed under the least solution of the
/// liveness equations and its jumps aimed at places; the rest of the graph
/// is kept.
pub open spec fn back_end(cfg: FunctionCFG, g: FunctionCFG) -> bool {
    let bs = cfg.blocks@;
    let ks = kept_places(reach_keep(bs, cfg.entry as int), bs.len() as int);
    &&& g.name == cfg.name
    &&& g.params == cfg.params
    &&& g.captures == cfg.captures
    &&& g.entry == cfg.entry
    &&& g.nested_functions == cfg.nested_functions
    &&& g.gen_ready()
    &&& g.blocks@.len() == ks.len()
    &&& exists|ins: Seq<Set<Seq<char>>>, outs: Seq<Set<Seq<char>>>|
        live_solution(bs, ins, outs) && live_within(bs, ins, outs) && forall|p: int|
            0 <= p < ks.len() ==> (#[trigger] g.blocks@[p]).id == p && stmts_view(g.blocks@[p].stmts@) == dce_from(
                stmts_view(bs[ks[p] as int].stmts@),
                0,
                term_reads(bs[ks[p] as int].terminator) + outs[ks[p] as int],
            ).0 && g.blocks@[p].terminator == retarget(bs[ks[p] as int].terminator, ks)
}

/// The back end: drops dead assignments, drops the blocks that cannot be
/// reached, numbers the blocks that are left by their place, and generates
/// the code. Gives the graph as it was at the end, and its code.
pub fn generate_program(cfg: FunctionCFG) -> (r: (FunctionCFG, Vec<Bytecode>))
    requires
        cfg.wf(),
    ensures
        back_end(cfg, r.0),
        code_view(r.1@) == cfg_code(r.0),
        bodies_ok(r.1@, r.0),
{
    let ghost g0 = cfg;
    let mut cfg = cfg;
    let liveliness = Liveliness::new();
    liveliness.eliminate_dead_assignments(&mut cfg);
    let n1 = cfg.blocks.len();
    let ghost g1 = cfg;
    proof {
        lemma_wf_gen_ready(&cfg);
    }
    let ghost before = cfg;
    cfg.clean_up();
    proof {
        let keep = choose|keep: Seq<bool>|
            {
                &&& keep.len() == before.blocks@.len()
                &&& keep[before.entry as int]
                &&& forall|i: int, k: int|
                    0 <= i < keep.len() && #[trigger] keep[i] && 0 <= k < term_targets(before.blocks@[i].terminator).len()
                        ==> keep[#[trigger] term_targets(before.blocks@[i].terminator)[k] as int]
                &&& forall|i: int| 0 <= i < keep.len() && #[trigger] keep[i] ==> reachable(before.blocks@, before.entry as int, i)
                &&& cfg.blocks@ == kept(before.blocks@, keep, before.blocks@.len() as int)
            };
        lemma_kept_ids_ordered(before.blocks@, keep);
    }
    let ghost g2 = cfg;
    cfg.renumber_blocks();
    assert(cfg.gen_ready());
    proof {
        let n = g0.blocks@.len() as int;
        lemma_reach_same(g1.blocks@, g0.blocks@, g0.entry as int);
        let keep = reach_keep(g0.blocks@, g0.entry as int);
        lemma_kept_places(g1.blocks@, keep, n);
        let ks = kept_places(keep, n);
        let (ins, outs) = choose|ins: Seq<Set<Seq<char>>>, outs: Seq<Set<Seq<char>>>|
            live_solution(g0.blocks@, ins, outs) && live_within(g0.blocks@, ins, outs)
                && forall|b: int| 0 <= b < g0.blocks@.len() ==>
                    stmts_view((#[trigger] g1.blocks@[b]).stmts@) == dce_from(stmts_view(g0.blocks@[b].stmts@), 0, term_reads(g0.blocks@[b].terminator) + outs[b]).0;
        assert forall|p: int| 0 <= p < ks.len() implies (#[trigger] cfg.blocks@[p]).id == p && stmts_view(cfg.blocks@[p].stmts@) == dce_from(
            stmts_view(g0.blocks@[ks[p] as int].stmts@),
            0,
            term_reads(g0.blocks@[ks[p] as int].terminator) + outs[ks[p] as int],
        ).0 && cfg.blocks@[p].terminator == retarget(g0.blocks@[ks[p] as int].terminator, ks) by {
            let b = ks[p] as int;
            assert(g2.blocks@[p] == g1.blocks@[b]);
            assert(stmts_view(g1.blocks@[b].stmts@) == dce_from(stmts_view(g0.blocks@[b].stmts@), 0, term_reads(g0.blocks@[b].terminator) + outs[b]).0);
        }
    }
    let mut codegen = CodeGen::new();
    assert(bodies_ok(codegen.raw(), cfg));
    let code = codegen.generate(&cfg);
    (cfg, code)
}

/// Compiles a source text to bytecode: the front end, then the control-flow
/// graph of the program as a function `main`, then the back end. A program
/// whose front end fails gives that error; one with a `break` or `continue`
/// outside a loop of its own function gives `BreakOutsideLoop`.
pub fn compile_source(source: &str) -> (r: Result<Vec<Bytecode>, CompileError>)
    ensures
        match front_end(source@) {
            Ok(ast) => if all_jumps_in_loops(ast, false, 0) {
                r is Ok && exists|g0: FunctionCFG, g: FunctionCFG|
                    graph_view(g0) == lower_function("main"@, Seq::empty(), Seq::empty(), ast) && g0.wf() && back_end(g0, g)
                        && code_view(r->Ok_0@) == cfg_code(g) && bodies_ok(r->Ok_0@, g)
            } else {
                r is Err && r->Err_0@ == CompileErrorV::Semantic(SemanticErrorV::BreakOutsideLoop)
            },
            Err(e) => r is Err && r->Err_0@ == e,
        },
{
    let ast = match check_source(source) {
        Ok(a) => a,
        Err(e) => return Err(e),
    };
    let cfg = match lower_program(&ast) {
        Ok(g) => g,
        Err(e) => return Err(e),
    };
    let ghost g0 = cfg;
    let (g, code) = generate_program(cfg);
    assert(graph_view(g0) == lower_function("main"@, Seq::empty(), Seq::empty(), stmts_view(ast@)) && g0.wf() && back_end(g0, g)
        && code_view(code@) == cfg_code(g) && bodies_ok(code@, g));
    Ok(code)
}

} // verus!
