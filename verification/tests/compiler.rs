use brainfuck::compiler::{optimize, CompileError};
use brainfuck::opcode::Opcode;

fn compile_ok(src: &str) -> Vec<Opcode> {
    optimize(src.chars().collect()).unwrap()
}

#[test]
fn folds_runs_of_identical_commands() {
    let ops = compile_ok("+++>>--<.");
    assert_eq!(
        ops,
        vec![
            Opcode::Plus(3),
            Opcode::Right(2),
            Opcode::Minus(2),
            Opcode::Left(1),
            Opcode::Out,
        ]
    );
}

#[test]
fn filtering_precedes_folding() {
    // the text between the runs holds no command, so the run is unbroken
    let ops = compile_ok("++ ab ++");
    assert_eq!(ops, vec![Opcode::Plus(4)]);
}

#[test]
fn plus_and_minus_stay_separate() {
    assert_eq!(compile_ok("++--"), vec![Opcode::Plus(2), Opcode::Minus(2)]);
}

#[test]
fn output_and_input_never_fold() {
    assert_eq!(
        compile_ok("..,,"),
        vec![Opcode::Out, Opcode::Out, Opcode::Input, Opcode::Input]
    );
}

#[test]
fn empty_program_compiles_to_nothing() {
    assert_eq!(compile_ok(""), vec![]);
}

#[test]
fn loop_indices_are_mutual_inverses() {
    let ops = compile_ok("[[]]");
    assert_eq!(
        ops,
        vec![
            Opcode::OpenLoop(3),
            Opcode::OpenLoop(2),
            Opcode::CloseLoop(1),
            Opcode::CloseLoop(0),
        ]
    );
}

#[test]
fn sequential_loops_resolve_independently() {
    let ops = compile_ok("[][]");
    assert_eq!(
        ops,
        vec![
            Opcode::OpenLoop(1),
            Opcode::CloseLoop(0),
            Opcode::OpenLoop(3),
            Opcode::CloseLoop(2),
        ]
    );
}

#[test]
fn unmatched_close_reports_filtered_position() {
    let r = optimize("+ ]".chars().collect());
    assert_eq!(r, Err(CompileError::UnmatchedCloseBracket(1)));
}

#[test]
fn unmatched_close_fails_even_after_balanced_loops() {
    let r = optimize("[]]".chars().collect());
    assert_eq!(r, Err(CompileError::UnmatchedCloseBracket(2)));
}

#[test]
fn unmatched_open_fails() {
    let r = optimize("[+".chars().collect());
    assert_eq!(r, Err(CompileError::UnmatchedOpenBracket));
}

#[test]
fn compiling_twice_yields_the_same_opcodes() {
    let a = compile_ok("+++[>++<-].");
    let b = compile_ok("+++[>++<-].");
    assert_eq!(a, b);
}

#[test]
fn surrounding_text_does_not_change_the_opcodes() {
    let bare = compile_ok("+++[>++<-].");
    let commented = compile_ok("+++ begin [ > ++ < - ] emit : .");
    assert_eq!(bare, commented);
}
