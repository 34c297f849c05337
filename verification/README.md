# brainmelt

A compiler from the eight-command tape language (`+ - < > . , [ ]`) to stand-alone
Linux x86-64 ELF executables, verified with Verus.

Layout of `src/`:

- `lexer.rs` — source text to tokens with line and column; `lex` returns exactly
  `tokens_of(source@)`.
- `parser.rs` — tokens to a program tree; `parse` succeeds exactly when the brackets
  balance, the tree is the unique primitive tree written with the tokens
  (`lemma_parse_unique`), and errors name the offending bracket.
- `ast.rs` — the tree (`Node`) and its mathematical model (`Cmd`).
- `semantics.rs` — the meaning of a program on an unbounded byte tape, with input and
  output, and program equivalence with its congruence lemmas.
- `optimizer.rs` — merging of adjacent adds and moves, clear loops and transfer loops;
  `optimize` returns `optimized` of its input, which is equivalent to it
  (`lemma_optimized_equivalent`), in normal form and idempotent.
- `native.rs` — machine code and ELF layout, byte for byte (`program_code`, `elf_image`).
- `lib.rs` — the whole pipeline, `compile_to_native_linux_amd64`.

`app/main.rs` is the command-line program: arguments, files, messages.
