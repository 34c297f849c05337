pub mod ast;
pub mod error;
pub mod footprint;
pub mod lexer;
pub mod native;
pub mod optimizer;
pub mod parser;
pub mod semantics;

use vstd::prelude::*;

use crate::ast::{nodes_model, Cmd};
pub use crate::error::{CompileError, Result};
use crate::footprint::{lemma_emittable_when_few, lemma_optimized_size, lemma_primitive_size};
use crate::lexer::{lemma_tokens_len, tokens_of};
use crate::native::{is_emittable, elf_image, emittable};
use crate::optimizer::{
    lemma_optimized_equivalent, lemma_optimized_magnitude, lemma_primitive_magnitude, optimized,
};
use crate::semantics::{equivalent, lemma_equivalent_refl};
use crate::parser::{
    balanced, depth, kinds_of, lemma_parse_unique, never_negative, parses_to, rejects_with,
    unmatched_close_at,
};

verus! {

/// The program that is emitted for a parsed tree: optimized or as it is.
pub open spec fn compiled(ast: Seq<Cmd>, optimize: bool) -> Seq<Cmd> {
    if optimize {
        optimized(ast).unwrap()
    } else {
        ast
    }
}

/// The program that the source text stands for, if its brackets balance, can be emitted:
/// every loop's jumps fit in 32 bits and the executable fits in memory.
pub open spec fn fits_target(source: Seq<char>, optimize: bool) -> bool {
    forall|ast: Seq<Cmd>|
        parses_to(tokens_of(source), ast) ==> #[trigger] emittable(compiled(ast, optimize))
}

/// The program emitted for a parsed tree means what the tree means, optimized or not.
pub proof fn lemma_compiled_equivalent(tokens: Seq<lexer::Token>, ast: Seq<Cmd>, optimize: bool)
    requires
        parses_to(tokens, ast),
        tokens.len() <= i64::MAX,
    ensures
        optimized(ast) is Some,
        equivalent(ast, compiled(ast, optimize)),
{
    lemma_primitive_magnitude(ast);
    assert(kinds_of(tokens).len() == tokens.len());
    lemma_optimized_magnitude(ast);
    if optimize {
        lemma_optimized_equivalent(ast);
    } else {
        lemma_equivalent_refl(ast);
    }
}

/// Every source text of at most twenty million characters fits the target, optimized or not:
/// its program's loops all fit the 32-bit jumps and its executable fits in memory.
pub proof fn lemma_small_sources_fit(source: Seq<char>, optimize: bool)
    requires
        source.len() <= 20_000_000,
    ensures
        fits_target(source, optimize),
{
    assert forall|ast: Seq<Cmd>| parses_to(tokens_of(source), ast) implies #[trigger] emittable(
        compiled(ast, optimize),
    ) by {
        lemma_tokens_len(source);
        assert(kinds_of(tokens_of(source)).len() == tokens_of(source).len());
        lemma_primitive_size(ast);
        lemma_primitive_magnitude(ast);
        lemma_optimized_magnitude(ast);
        lemma_optimized_size(ast);
        lemma_emittable_when_few(compiled(ast, optimize));
    }
}

/// Compiles source text to a Linux x86-64 executable: lexes, parses, optimizes when asked,
/// emits. Fails exactly when the brackets do not balance, with the error `parse` gives.
pub fn compile_to_native_linux_amd64(source: &str, optimize: bool) -> (res: Result<Vec<u8>>)
    requires
        source@.len() <= isize::MAX,
        fits_target(source@, optimize),
    ensures
        match res {
            Ok(elf) => exists|ast: Seq<Cmd>|
                #[trigger] parses_to(tokens_of(source@), ast) && elf@ == elf_image(
                    compiled(ast, optimize),
                ),
            Err(e) => rejects_with(tokens_of(source@), e),
        },
{
    let tokens = lexer::lex(source);
    let program = match parser::parse(&tokens) {
        Ok(program) => program,
        Err(e) => return Err(e),
    };
    let ghost ast = nodes_model(program@);
    proof {
        lemma_tokens_len(source@);
        lemma_primitive_magnitude(ast);
        assert(kinds_of(tokens@).len() == tokens@.len());
        lemma_optimized_magnitude(ast);
        assert(emittable(compiled(ast, optimize)));
    }

    let program = if optimize {
        optimizer::optimize(program)
    } else {
        program
    };

    Ok(native::emit_linux_amd64_elf(&program))
}

/// Whether `compile_to_native_linux_amd64` can compile the source without running past what
/// the target allows: true when the brackets do not balance (the compiler then reports the
/// error) or when the program to emit fits.
pub fn source_fits_target(source: &str, optimize: bool) -> (ok: bool)
    requires
        source@.len() <= isize::MAX,
    ensures
        ok == fits_target(source@, optimize),
{
    let tokens = lexer::lex(source);
    match parser::parse(&tokens) {
        Err(e) => {
            proof {
                let kinds = kinds_of(tokens@);
                match e {
                    CompileError::UnmatchedClose { .. } => {
                        let i = choose|i: int| #[trigger] unmatched_close_at(kinds, i);
                        assert(!never_negative(kinds)) by {
                            assert(depth(kinds.take(i + 1)) < 0);
                        }
                    },
                    _ => {},
                }
                assert(!balanced(kinds));
                assert forall|ast: Seq<Cmd>|
                    parses_to(tokens_of(source@), ast) implies #[trigger] emittable(
                        compiled(ast, optimize),
                    ) by {}
            }
            true
        },
        Ok(program) => {
            let ghost ast = nodes_model(program@);
            proof {
                lemma_tokens_len(source@);
                lemma_primitive_magnitude(ast);
                assert(kinds_of(tokens@).len() == tokens@.len());
                lemma_optimized_magnitude(ast);
            }
            let program = if optimize {
                optimizer::optimize(program)
            } else {
                program
            };
            let ok = is_emittable(&program);
            proof {
                assert forall|other: Seq<Cmd>|
                    parses_to(tokens_of(source@), other) implies #[trigger] emittable(
                        compiled(other, optimize),
                    ) == ok by {
                    lemma_parse_unique(tokens@, ast, other);
                }
                if !ok {
                    assert(!emittable(compiled(ast, optimize)));
                }
            }
            ok
        },
    }
}

} // verus!
