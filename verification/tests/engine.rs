use brainfuck::compiler::optimize;
use brainfuck::engine::{run, Machine, RunError, RunOutcome, RunStatus};
use brainfuck::opcode::Opcode;

fn ops(src: &str) -> Vec<Opcode> {
    optimize(src.chars().collect()).unwrap()
}

fn run_ok(src: &str, tape: usize, input: Vec<u8>) -> Machine {
    match run(&ops(src), tape, input, 1_000_000) {
        RunOutcome::Completed(m) => m,
        RunOutcome::OutOfSteps(_) => panic!("run did not finish in the step budget"),
        RunOutcome::Failed(e) => panic!("run failed: {:?}", e),
    }
}

#[test]
fn increments_wrap_modulo_256() {
    // 255 increments and one more land back on 0
    let m = run_ok(&"+".repeat(256), 1, vec![]);
    assert_eq!(m.tape[0], 0);
}

#[test]
fn decrement_of_zero_wraps_to_255() {
    let m = run_ok("-", 1, vec![]);
    assert_eq!(m.tape[0], 255);
}

#[test]
fn folded_arithmetic_wraps_too() {
    let m = run_ok(&"+".repeat(300), 1, vec![]);
    assert_eq!(m.tape[0], 44);
}

#[test]
fn loop_on_zero_cell_runs_zero_iterations() {
    // entered with the cell already 0, the loop ends within a single step
    match run(&ops("[-]"), 1, vec![], 1) {
        RunOutcome::Completed(m) => {
            assert_eq!(m.tape[0], 0);
            assert!(m.output.is_empty());
        },
        RunOutcome::OutOfSteps(_) => panic!("the loop body was entered"),
        RunOutcome::Failed(e) => panic!("run failed: {:?}", e),
    }
}

#[test]
fn emits_letter_a() {
    let m = run_ok("++++++++[>++++++++<-]>+.", 30, vec![]);
    assert_eq!(m.output, vec![65]);
}

#[test]
fn input_byte_lands_in_current_cell() {
    let m = run_ok(",", 30, vec![97, 98]);
    assert_eq!(m.tape[0], 97);
    assert_eq!(m.input_pos, 1);
}

#[test]
fn move_below_zero_is_reported() {
    match run(&ops("<"), 30, vec![], 100) {
        RunOutcome::Failed(RunError::PointerOutOfBounds(at)) => assert_eq!(at, 0),
        _ => panic!("expected a pointer fault"),
    }
}

#[test]
fn move_past_capacity_is_reported() {
    match run(&ops(">>"), 2, vec![], 100) {
        RunOutcome::Failed(RunError::PointerOutOfBounds(at)) => assert_eq!(at, 0),
        _ => panic!("expected a pointer fault"),
    }
}

#[test]
fn reading_exhausted_input_is_reported() {
    match run(&ops(",,"), 30, vec![97], 100) {
        RunOutcome::Failed(RunError::UnsupportedInput(at)) => assert_eq!(at, 1),
        _ => panic!("expected an input fault"),
    }
}

#[test]
fn out_of_steps_runs_can_resume() {
    let prog = ops("+[]");
    match run(&prog, 1, vec![], 10) {
        RunOutcome::OutOfSteps(mut m) => match m.run_steps(&prog, 10) {
            RunStatus::OutOfSteps => {},
            _ => panic!("the loop should still be spinning"),
        },
        _ => panic!("the loop should never end"),
    }
}

#[test]
fn output_preserves_program_order() {
    let m = run_ok("+.+.+.", 1, vec![]);
    assert_eq!(m.output, vec![1, 2, 3]);
}

#[test]
fn pointer_moves_and_cell_writes_compose() {
    let m = run_ok(">+++>++<<+", 3, vec![]);
    assert_eq!(m.tape, vec![1, 3, 2]);
}
