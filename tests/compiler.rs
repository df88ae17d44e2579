use fckmaker::program::{compile, filter_symbols, CompileError, Instruction};

#[test]
fn compile_collapses_runs() {
    let prog = compile(">>>+++--<<.,").unwrap();
    assert_eq!(
        prog,
        vec![
            Instruction::MoveRight(3),
            Instruction::Increment(3),
            Instruction::Decrement(2),
            Instruction::MoveLeft(2),
            Instruction::Write,
            Instruction::Read,
            Instruction::End,
        ]
    );
}

#[test]
fn compile_ignores_comments() {
    let prog = compile("a + b + c, then print .").unwrap();
    assert_eq!(prog, vec![Instruction::Increment(2), Instruction::Read, Instruction::Write, Instruction::End]);
}

#[test]
fn compile_splits_long_increment_runs() {
    let source = "+".repeat(300);
    let prog = compile(&source).unwrap();
    assert_eq!(prog, vec![Instruction::Increment(256), Instruction::Increment(44), Instruction::End]);
    let source = "-".repeat(512);
    let prog = compile(&source).unwrap();
    assert_eq!(prog, vec![Instruction::Decrement(256), Instruction::Decrement(256), Instruction::End]);
}

#[test]
fn compile_never_collapses_io_and_loops() {
    let prog = compile("..,,[[]]").unwrap();
    assert_eq!(
        prog,
        vec![
            Instruction::Write,
            Instruction::Write,
            Instruction::Read,
            Instruction::Read,
            Instruction::LoopStart(7),
            Instruction::LoopStart(6),
            Instruction::LoopEnd(5),
            Instruction::LoopEnd(4),
            Instruction::End,
        ]
    );
}

#[test]
fn compile_resolves_loop_targets() {
    let prog = compile("[>]").unwrap();
    assert_eq!(
        prog,
        vec![Instruction::LoopStart(2), Instruction::MoveRight(1), Instruction::LoopEnd(0), Instruction::End]
    );
    let prog = compile("+[-[+]>]<").unwrap();
    assert_eq!(
        prog,
        vec![
            Instruction::Increment(1),
            Instruction::LoopStart(7),
            Instruction::Decrement(1),
            Instruction::LoopStart(5),
            Instruction::Increment(1),
            Instruction::LoopEnd(3),
            Instruction::MoveRight(1),
            Instruction::LoopEnd(1),
            Instruction::MoveLeft(1),
            Instruction::End,
        ]
    );
}

#[test]
fn compile_empty_source() {
    assert_eq!(compile("").unwrap(), vec![Instruction::End]);
    assert_eq!(compile("no symbols here").unwrap(), vec![Instruction::End]);
}

#[test]
fn compile_is_deterministic() {
    let source = "++[>++[>+<-]<-]>>.";
    let a = compile(source).unwrap();
    let b = compile(source).unwrap();
    assert_eq!(a, b);
}

#[test]
fn compile_rejects_unclosed_loop() {
    assert!(matches!(compile("[[]"), Err(CompileError::UnmatchedLoopStart(_))));
    assert_eq!(compile("+["), Err(CompileError::UnmatchedLoopStart(1)));
}

#[test]
fn compile_rejects_stray_loop_end() {
    assert_eq!(compile("]"), Err(CompileError::UnmatchedLoopEnd(0)));
    assert_eq!(compile("[]]["), Err(CompileError::UnmatchedLoopEnd(2)));
}

#[test]
fn filter_keeps_only_symbols() {
    assert_eq!(filter_symbols("a>b<c+d-e.f,g[h]"), vec!['>', '<', '+', '-', '.', ',', '[', ']']);
    assert_eq!(filter_symbols("héllo ✓ +"), vec!['+']);
}
