use vstd::arithmetic::div_mod::{
    lemma_add_mod_noop, lemma_mod_add_multiples_vanish, lemma_small_mod, lemma_sub_mod_noop,
};
use vstd::prelude::*;

use crate::opcode::{op_pair_ok, prog_wf, Opcode};

verus! {

/// Why a run was aborted. Both conditions are fatal for the run; the payload
/// is the index of the opcode at which the run failed.
#[derive(Clone, Copy, PartialEq, Eq, Structural, Debug)]
pub enum RunError {
    /// A move opcode would have placed the data pointer outside the tape.
    PointerOutOfBounds(usize),
    /// An input opcode found the input stream exhausted. The engine reads
    /// input by blocking reads from a finite stream handed to it up front, so
    /// a read past that stream's end has no byte to return.
    UnsupportedInput(usize),
}

/// The mathematical state of a machine mid-run: the tape, both cursors, the
/// input bytes not yet consumed, and the output bytes emitted so far.
#[verifier::ext_equal]
pub ghost struct MachineState {
    pub tape: Seq<u8>,
    pub data_pointer: int,
    pub instruction_pointer: int,
    pub input: Seq<u8>,
    pub output: Seq<u8>,
}

/// The state a run starts from: a zero-initialized tape, both cursors at 0,
/// the whole input stream ahead, and nothing emitted.
pub open spec fn init_state(tape_len: nat, input: Seq<u8>) -> MachineState {
    MachineState {
        tape: Seq::new(tape_len, |j: int| 0u8),
        data_pointer: 0,
        instruction_pointer: 0,
        input,
        output: Seq::empty(),
    }
}

/// The effect of the one opcode under the instruction pointer: fetch,
/// advance the instruction pointer, apply. Move opcodes fail rather than
/// leave the tape; arithmetic wraps modulo 256 and never fails; loop opcodes
/// jump to just after their partner, or fall through.
pub open spec fn step_spec(prog: Seq<Opcode>, s: MachineState) -> Result<MachineState, RunError> {
    let ip = s.instruction_pointer;
    let cell = s.tape[s.data_pointer];
    match prog[ip] {
        Opcode::Right(n) => if s.data_pointer + n < s.tape.len() {
            Ok(MachineState { data_pointer: s.data_pointer + n, instruction_pointer: ip + 1, ..s })
        } else {
            Err(RunError::PointerOutOfBounds(ip as usize))
        },
        Opcode::Left(n) => if n <= s.data_pointer {
            Ok(MachineState { data_pointer: s.data_pointer - n, instruction_pointer: ip + 1, ..s })
        } else {
            Err(RunError::PointerOutOfBounds(ip as usize))
        },
        Opcode::Plus(n) => Ok(
            MachineState {
                tape: s.tape.update(s.data_pointer, (((cell + n) % 256) as u8)),
                instruction_pointer: ip + 1,
                ..s
            },
        ),
        Opcode::Minus(n) => Ok(
            MachineState {
                tape: s.tape.update(s.data_pointer, (((cell - n) % 256) as u8)),
                instruction_pointer: ip + 1,
                ..s
            },
        ),
        Opcode::Out => Ok(
            MachineState { output: s.output.push(cell), instruction_pointer: ip + 1, ..s },
        ),
        Opcode::Input => if s.input.len() > 0 {
            Ok(
                MachineState {
                    tape: s.tape.update(s.data_pointer, s.input.first()),
                    input: s.input.drop_first(),
                    instruction_pointer: ip + 1,
                    ..s
                },
            )
        } else {
            Err(RunError::UnsupportedInput(ip as usize))
        },
        Opcode::OpenLoop(c) => if cell == 0 {
            Ok(MachineState { instruction_pointer: c + 1, ..s })
        } else {
            Ok(MachineState { instruction_pointer: ip + 1, ..s })
        },
        Opcode::CloseLoop(o) => if cell != 0 {
            Ok(MachineState { instruction_pointer: o + 1, ..s })
        } else {
            Ok(MachineState { instruction_pointer: ip + 1, ..s })
        },
    }
}

/// How a bounded run ends.
#[verifier::ext_equal]
pub ghost enum RunSpecResult {
    /// The instruction pointer passed the end of the opcode sequence.
    Done(MachineState),
    /// The step bound ran out first; the state is ready to be resumed.
    OutOfFuel(MachineState),
    /// A step failed; the error is fatal for the run.
    Failed(RunError),
}

/// The state after at most `fuel` steps of the fetch-execute loop: the run
/// ends when the instruction pointer reaches the end of the opcode sequence,
/// and a failing step aborts it.
pub open spec fn run_spec(prog: Seq<Opcode>, s: MachineState, fuel: nat) -> RunSpecResult
    decreases fuel,
{
    if s.instruction_pointer >= prog.len() {
        RunSpecResult::Done(s)
    } else if fuel == 0 {
        RunSpecResult::OutOfFuel(s)
    } else {
        match step_spec(prog, s) {
            Ok(s2) => run_spec(prog, s2, (fuel - 1) as nat),
            Err(e) => RunSpecResult::Failed(e),
        }
    }
}

/// The execution engine's concrete state: a byte tape, the two cursors, the
/// input stream with a read position, and the output collected so far.
pub struct Machine {
    pub tape: Vec<u8>,
    pub data_pointer: usize,
    pub instruction_pointer: usize,
    pub input: Vec<u8>,
    pub input_pos: usize,
    pub output: Vec<u8>,
}

impl View for Machine {
    type V = MachineState;

    open spec fn view(&self) -> MachineState {
        MachineState {
            tape: self.tape@,
            data_pointer: self.data_pointer as int,
            instruction_pointer: self.instruction_pointer as int,
            input: self.input@.skip(self.input_pos as int),
            output: self.output@,
        }
    }
}

impl Machine {
    /// Internal consistency: the data pointer rests on a tape cell and the
    /// input read position has not passed the stream's end.
    pub open spec fn wf(&self) -> bool {
        self.data_pointer < self.tape@.len() && self.input_pos <= self.input@.len()
    }

    /// A fresh machine: `tape_size` zeroed cells (the tape needs at least the
    /// cell the data pointer starts on), both cursors at 0, `input` ahead.
    pub fn new(tape_size: usize, input: Vec<u8>) -> (m: Machine)
        requires
            tape_size >= 1,
        ensures
            m@ == init_state(tape_size as nat, input@),
            m.wf(),
    {
        let mut tape: Vec<u8> = Vec::new();
        let mut i: usize = 0;
        while i < tape_size
            invariant
                i <= tape_size,
                tape@ == Seq::new(i as nat, |j: int| 0u8),
            decreases tape_size - i,
        {
            tape.push(0);
            proof {
                assert(tape@ =~= Seq::new((i + 1) as nat, |j: int| 0u8));
            }
            i = i + 1;
        }
        let m = Machine {
            tape,
            data_pointer: 0,
            instruction_pointer: 0,
            input,
            input_pos: 0,
            output: Vec::new(),
        };
        proof {
            assert(m@ =~= init_state(tape_size as nat, input@));
        }
        m
    }

    /// One step of the fetch-execute loop, exactly as `step_spec` has it.
    pub fn step(&mut self, prog: &Vec<Opcode>) -> (r: Result<(), RunError>)
        requires
            prog_wf(prog@),
            old(self).wf(),
            old(self).instruction_pointer < prog@.len(),
        ensures
            final(self).wf(),
            final(self)@.instruction_pointer <= prog@.len(),
            match r {
                Ok(()) => step_spec(prog@, old(self)@) == Ok::<MachineState, RunError>(
                    final(self)@,
                ),
                Err(e) => step_spec(prog@, old(self)@) == Err::<MachineState, RunError>(e)
                    && final(self)@ == old(self)@,
            },
    {
        let n = prog.len();
        let ip = self.instruction_pointer;
        let op = prog[ip];
        assert(ip < n && n == prog@.len());
        assert(op_pair_ok(prog@, ip as int));
        match op {
            Opcode::Right(n) => {
                if n < (self.tape.len() - self.data_pointer) as u64 {
                    self.data_pointer = self.data_pointer + (n as usize);
                    self.instruction_pointer = ip + 1;
                    proof {
                        assert(self@ =~= step_spec(prog@, old(self)@)->Ok_0);
                    }
                    Ok(())
                } else {
                    Err(RunError::PointerOutOfBounds(ip))
                }
            },
            Opcode::Left(n) => {
                if n <= self.data_pointer as u64 {
                    self.data_pointer = self.data_pointer - (n as usize);
                    self.instruction_pointer = ip + 1;
                    proof {
                        assert(self@ =~= step_spec(prog@, old(self)@)->Ok_0);
                    }
                    Ok(())
                } else {
                    Err(RunError::PointerOutOfBounds(ip))
                }
            },
            Opcode::Plus(n) => {
                let cell = self.tape[self.data_pointer];
                let d = (n % 256) as u8;
                let v = ((cell as u16 + d as u16) % 256) as u8;
                self.tape.set(self.data_pointer, v);
                self.instruction_pointer = ip + 1;
                proof {
                    lemma_add_mod_noop(cell as int, n as int, 256);
                    lemma_small_mod(cell as nat, 256);
                    assert(v == ((cell + n) % 256) as u8);
                    assert(self@ =~= step_spec(prog@, old(self)@)->Ok_0);
                }
                Ok(())
            },
            Opcode::Minus(n) => {
                let cell = self.tape[self.data_pointer];
                let d = (n % 256) as u8;
                let v = ((cell as u16 + 256 - d as u16) % 256) as u8;
                self.tape.set(self.data_pointer, v);
                self.instruction_pointer = ip + 1;
                proof {
                    lemma_sub_mod_noop(cell as int, n as int, 256);
                    lemma_small_mod(cell as nat, 256);
                    lemma_mod_add_multiples_vanish(cell - d, 256);
                    assert(v == ((cell - n) % 256) as u8);
                    assert(self@ =~= step_spec(prog@, old(self)@)->Ok_0);
                }
                Ok(())
            },
            Opcode::Out => {
                let cell = self.tape[self.data_pointer];
                self.output.push(cell);
                self.instruction_pointer = ip + 1;
                proof {
                    assert(self@ =~= step_spec(prog@, old(self)@)->Ok_0);
                }
                Ok(())
            },
            Opcode::Input => {
                if self.input_pos < self.input.len() {
                    let b = self.input[self.input_pos];
                    self.tape.set(self.data_pointer, b);
                    self.input_pos = self.input_pos + 1;
                    self.instruction_pointer = ip + 1;
                    proof {
                        assert(old(self)@.input.len() > 0);
                        assert(old(self)@.input.first() == b);
                        assert(self@.input =~= old(self)@.input.drop_first());
                        assert(self@ =~= step_spec(prog@, old(self)@)->Ok_0);
                    }
                    Ok(())
                } else {
                    proof {
                        assert(old(self)@.input.len() == 0);
                    }
                    Err(RunError::UnsupportedInput(ip))
                }
            },
            Opcode::OpenLoop(c) => {
                if self.tape[self.data_pointer] == 0 {
                    self.instruction_pointer = c + 1;
                } else {
                    self.instruction_pointer = ip + 1;
                }
                proof {
                    assert(self@ =~= step_spec(prog@, old(self)@)->Ok_0);
                }
                Ok(())
            },
            Opcode::CloseLoop(o) => {
                if self.tape[self.data_pointer] != 0 {
                    self.instruction_pointer = o + 1;
                } else {
                    self.instruction_pointer = ip + 1;
                }
                proof {
                    assert(self@ =~= step_spec(prog@, old(self)@)->Ok_0);
                }
                Ok(())
            },
        }
    }
    /// Runs the fetch-execute loop for at most `max_steps` opcodes, exactly
    /// as `run_spec` has it from the machine's current state. A machine left
    /// out of steps can be handed back in to resume where it stopped.
    pub fn run_steps(&mut self, prog: &Vec<Opcode>, max_steps: u64) -> (r: RunStatus)
        requires
            prog_wf(prog@),
            old(self).wf(),
            old(self).instruction_pointer <= prog@.len(),
        ensures
            final(self).wf(),
            final(self).instruction_pointer <= prog@.len(),
            match r {
                RunStatus::Completed => run_spec(prog@, old(self)@, max_steps as nat)
                    == RunSpecResult::Done(final(self)@),
                RunStatus::OutOfSteps => run_spec(prog@, old(self)@, max_steps as nat)
                    == RunSpecResult::OutOfFuel(final(self)@),
                RunStatus::Failed(e) => run_spec(prog@, old(self)@, max_steps as nat)
                    == RunSpecResult::Failed(e),
            },
    {
        let ghost start = self@;
        let mut steps: u64 = 0;
        loop
            invariant
                old(self)@ == start,
                prog_wf(prog@),
                self.wf(),
                self.instruction_pointer <= prog@.len(),
                steps <= max_steps,
                run_spec(prog@, self@, (max_steps - steps) as nat) == run_spec(
                    prog@,
                    start,
                    max_steps as nat,
                ),
            decreases max_steps - steps,
        {
            if self.instruction_pointer >= prog.len() {
                return RunStatus::Completed;
            }
            if steps == max_steps {
                return RunStatus::OutOfSteps;
            }
            let res = self.step(prog);
            match res {
                Ok(()) => {
                    steps = steps + 1;
                },
                Err(e) => {
                    return RunStatus::Failed(e);
                },
            }
        }
    }
}

/// How a call of `Machine::run_steps` ended.
#[derive(Clone, Copy, PartialEq, Eq, Structural, Debug)]
pub enum RunStatus {
    /// The instruction pointer passed the end of the opcode sequence.
    Completed,
    /// The step bound ran out first.
    OutOfSteps,
    /// A step failed.
    Failed(RunError),
}

/// How a whole run ended; the machine carries the final tape, cursors and
/// output.
pub enum RunOutcome {
    /// The instruction pointer passed the end of the opcode sequence.
    Completed(Machine),
    /// The step bound ran out first; the machine can be resumed with
    /// `Machine::run_steps`.
    OutOfSteps(Machine),
    /// A step failed.
    Failed(RunError),
}

/// Runs an opcode sequence, as the compiler produces it, on a fresh machine
/// with `tape_size` zeroed cells and `input` ahead, for at most `max_steps`
/// opcodes: the bounded fetch-execute loop of `run_spec`, started from
/// `init_state`.
pub fn run(opcodes: &Vec<Opcode>, tape_size: usize, input: Vec<u8>, max_steps: u64) -> (r:
    RunOutcome)
    requires
        prog_wf(opcodes@),
        tape_size >= 1,
    ensures
        match r {
            RunOutcome::Completed(m) => run_spec(
                opcodes@,
                init_state(tape_size as nat, input@),
                max_steps as nat,
            ) == RunSpecResult::Done(m@) && m.wf(),
            RunOutcome::OutOfSteps(m) => run_spec(
                opcodes@,
                init_state(tape_size as nat, input@),
                max_steps as nat,
            ) == RunSpecResult::OutOfFuel(m@) && m.wf(),
            RunOutcome::Failed(e) => run_spec(
                opcodes@,
                init_state(tape_size as nat, input@),
                max_steps as nat,
            ) == RunSpecResult::Failed(e),
        },
{
    let mut m = Machine::new(tape_size, input);
    match m.run_steps(opcodes, max_steps) {
        RunStatus::Completed => RunOutcome::Completed(m),
        RunStatus::OutOfSteps => RunOutcome::OutOfSteps(m),
        RunStatus::Failed(e) => RunOutcome::Failed(e),
    }
}

/// A loop entry whose guard sees a zero cell executes none of its body: the
/// one step it takes moves the instruction pointer to just past the matching
/// close, and touches nothing else.
pub proof fn lemma_loop_skipped_when_zero(prog: Seq<Opcode>, s: MachineState, c: usize)
    requires
        0 <= s.instruction_pointer < prog.len(),
        prog[s.instruction_pointer] == Opcode::OpenLoop(c),
        0 <= s.data_pointer < s.tape.len(),
        s.tape[s.data_pointer] == 0,
    ensures
        step_spec(prog, s) == Ok::<MachineState, RunError>(
            (MachineState { instruction_pointer: c + 1, ..s }),
        ),
{
}

/// A program that is one loop — its first opcode the open, pointing at the
/// last — entered with the tape still zeroed terminates at once: zero
/// iterations of the body run, nothing is read or written, and one step of
/// any budget is enough.
pub proof fn lemma_zero_loop_terminates(prog: Seq<Opcode>, tape_len: nat, input: Seq<u8>, fuel: nat)
    requires
        1 <= prog.len() <= usize::MAX,
        tape_len >= 1,
        prog[0] == Opcode::OpenLoop((prog.len() - 1) as usize),
        fuel >= 1,
    ensures
        run_spec(prog, init_state(tape_len, input), fuel) == RunSpecResult::Done(
            (MachineState { instruction_pointer: prog.len() as int, ..init_state(tape_len, input) }),
        ),
{
    let s = init_state(tape_len, input);
    lemma_loop_skipped_when_zero(prog, s, (prog.len() - 1) as usize);
    let s2 = MachineState { instruction_pointer: prog.len() as int, ..s };
    assert(run_spec(prog, s, fuel) == run_spec(prog, s2, (fuel - 1) as nat));
    assert(run_spec(prog, s2, (fuel - 1) as nat) == RunSpecResult::Done(s2));
}

} // verus!
