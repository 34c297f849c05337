use brainmelt::source_fits_target;
use brainmelt::ast::Node;
use brainmelt::compile_to_native_linux_amd64;
use brainmelt::error::CompileError;
use brainmelt::native::emit_linux_amd64_elf;

#[test]
fn compiles_with_and_without_optimization() {
    let optimized = compile_to_native_linux_amd64("[-] a comment", true).unwrap();
    assert_eq!(optimized, emit_linux_amd64_elf(&[Node::Clear]));

    let plain = compile_to_native_linux_amd64("[-] a comment", false).unwrap();
    assert_eq!(plain, emit_linux_amd64_elf(&[Node::Loop(vec![Node::Add(-1)])]));
}

#[test]
fn reports_bracket_errors() {
    assert_eq!(
        compile_to_native_linux_amd64("+\n+[", true),
        Err(CompileError::UnmatchedOpen { line: 2, col: 2 })
    );
    assert_eq!(
        compile_to_native_linux_amd64(" ]", false),
        Err(CompileError::UnmatchedClose { line: 1, col: 2 })
    );
}

#[test]
fn error_messages() {
    assert_eq!(
        CompileError::UnmatchedOpen { line: 12, col: 305 }.message(),
        "unmatched '[' at line 12, column 305"
    );
    assert_eq!(
        CompileError::UnmatchedClose { line: 1, col: 0 }.message(),
        "unmatched ']' at line 1, column 0"
    );
    assert_eq!(CompileError::Io("boom".to_string()).message(), "I/O error: boom");
}

#[test]
fn ordinary_sources_fit_the_target() {
    assert!(source_fits_target("++[->+<]>.", true));
    assert!(source_fits_target("++[->+<]>.", false));
    assert!(source_fits_target("[", true));
    assert!(source_fits_target("]", false));
}
