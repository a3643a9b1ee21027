//! Execution of a flat opcode sequence against a byte tape.
//!
//! The machine is a program counter, a data pointer, the tape, a cursor into
//! the input bytes, and the bytes written so far. One step executes the
//! opcode under the program counter and then advances it by one; a taken jump
//! first overwrites the counter with the jump's target, so targets sit one
//! position before their logical landing point. The machine halts when the
//! counter leaves the program. A move below the tape's start or past the
//! machine-word bound, a cell access outside the tape, and a read past the
//! end of the input are reported as errors rather than aborting the process.
//! Because a source program may loop forever, the executor takes a step
//! budget and reports when the budget ran out first.

use crate::codegen::Opcode;
use vstd::prelude::*;

verus! {

/// A runtime fault that stops execution.
#[derive(Clone, Copy, Debug, PartialEq, Eq)]
pub enum ExecError {
    /// The data pointer left the tape, or a cell outside the tape was used.
    TapeBounds,
    /// A read opcode ran after the input bytes were exhausted.
    InputExhausted,
}

/// How a run ended.
#[derive(Debug, PartialEq)]
pub enum ExecOutcome {
    /// The machine halted; the bytes it wrote, in program order.
    Halted(Vec<u8>),
    /// The step budget ran out first; the bytes written so far.
    OutOfFuel(Vec<u8>),
    /// Execution stopped on a runtime fault.
    Failed(ExecError),
}

/// The whole machine state between two steps.
pub ghost struct MachineState {
    /// Index of the next opcode to execute.
    pub pc: nat,
    /// Index of the currently selected tape cell.
    pub dp: nat,
    /// The tape cells.
    pub tape: Seq<u8>,
    /// How many input bytes were consumed.
    pub in_pos: nat,
    /// The bytes written so far.
    pub output: Seq<u8>,
}

/// A run after some number of steps: still going, halted, or stopped on a
/// fault. The two final states absorb further steps.
pub ghost enum Run {
    Running(MachineState),
    Halted(MachineState),
    Failed(ExecError, MachineState),
}

/// `a + b` modulo one byte.
pub open spec fn wrap_add_u8(a: u8, b: u8) -> u8 {
    ((a + b) % 256) as u8
}

/// `a - b` modulo one byte.
pub open spec fn wrap_sub_u8(a: u8, b: u8) -> u8 {
    ((a + 256 - b) % 256) as u8
}

/// The machine before the first step.
pub open spec fn init_state(tape: Seq<u8>) -> MachineState {
    MachineState { pc: 0, dp: 0, tape: tape, in_pos: 0, output: Seq::empty() }
}

/// One step of the machine: what the opcode under the program counter does.
pub open spec fn step(prog: Seq<Opcode>, input: Seq<u8>, s: MachineState) -> Run {
    if s.pc >= prog.len() {
        Run::Halted(s)
    } else {
        match prog[s.pc as int] {
            Opcode::MoveLeft(k) => if k > s.dp {
                Run::Failed(ExecError::TapeBounds, s)
            } else {
                Run::Running(MachineState { pc: s.pc + 1, dp: (s.dp - k) as nat, ..s })
            },
            Opcode::MoveRight(k) => if s.dp + k > usize::MAX {
                Run::Failed(ExecError::TapeBounds, s)
            } else {
                Run::Running(MachineState { pc: s.pc + 1, dp: (s.dp + k) as nat, ..s })
            },
            Opcode::Add(k) => if s.dp >= s.tape.len() {
                Run::Failed(ExecError::TapeBounds, s)
            } else {
                Run::Running(
                    MachineState {
                        pc: s.pc + 1,
                        tape: s.tape.update(s.dp as int, wrap_add_u8(s.tape[s.dp as int], k)),
                        ..s
                    },
                )
            },
            Opcode::Sub(k) => if s.dp >= s.tape.len() {
                Run::Failed(ExecError::TapeBounds, s)
            } else {
                Run::Running(
                    MachineState {
                        pc: s.pc + 1,
                        tape: s.tape.update(s.dp as int, wrap_sub_u8(s.tape[s.dp as int], k)),
                        ..s
                    },
                )
            },
            Opcode::Write => if s.dp >= s.tape.len() {
                Run::Failed(ExecError::TapeBounds, s)
            } else {
                Run::Running(
                    MachineState { pc: s.pc + 1, output: s.output.push(s.tape[s.dp as int]), ..s },
                )
            },
            Opcode::Read => if s.dp >= s.tape.len() {
                Run::Failed(ExecError::TapeBounds, s)
            } else if s.in_pos >= input.len() {
                Run::Failed(ExecError::InputExhausted, s)
            } else {
                Run::Running(
                    MachineState {
                        pc: s.pc + 1,
                        tape: s.tape.update(s.dp as int, input[s.in_pos as int]),
                        in_pos: s.in_pos + 1,
                        ..s
                    },
                )
            },
            Opcode::JumpIfZero(t) => if s.dp >= s.tape.len() {
                Run::Failed(ExecError::TapeBounds, s)
            } else if s.tape[s.dp as int] == 0 {
                Run::Running(MachineState { pc: (t + 1) as nat, ..s })
            } else {
                Run::Running(MachineState { pc: s.pc + 1, ..s })
            },
            Opcode::JumpUnlessZero(t) => if s.dp >= s.tape.len() {
                Run::Failed(ExecError::TapeBounds, s)
            } else if s.tape[s.dp as int] != 0 {
                Run::Running(MachineState { pc: (t + 1) as nat, ..s })
            } else {
                Run::Running(MachineState { pc: s.pc + 1, ..s })
            },
        }
    }
}

/// The run after `n` steps from state `s`.
pub open spec fn run_n(prog: Seq<Opcode>, input: Seq<u8>, s: MachineState, n: nat) -> Run
    decreases n,
{
    if n == 0 {
        Run::Running(s)
    } else {
        match run_n(prog, input, s, (n - 1) as nat) {
            Run::Running(t) => step(prog, input, t),
            done => done,
        }
    }
}

/// Once the machine has halted or failed, further steps change nothing: the
/// outcome of a run is unique.
pub proof fn lemma_run_absorbs(prog: Seq<Opcode>, input: Seq<u8>, s: MachineState, n: nat, m: nat)
    requires
        n <= m,
        !(run_n(prog, input, s, n) is Running),
    ensures
        run_n(prog, input, s, m) == run_n(prog, input, s, n),
    decreases m,
{
    if n < m {
        lemma_run_absorbs(prog, input, s, n, (m - 1) as nat);
    }
}

/// Runs a program for at most `fuel` steps against a tape and input bytes.
/// The result is exactly what the step semantics gives after `fuel` steps:
/// halted with the bytes written, still running (out of fuel), or stopped on
/// the fault the semantics names; the tape holds the machine's final cells
/// either way.
#[verifier::rlimit(100)]
pub fn execute(program: &Vec<Opcode>, tape: &mut Vec<u8>, input: &Vec<u8>, fuel: u64) -> (r:
    ExecOutcome)
    ensures
        ({
            let fin = run_n(program@, input@, init_state(old(tape)@), fuel as nat);
            match fin {
                Run::Running(st) => final(tape)@ == st.tape && (match r {
                    ExecOutcome::OutOfFuel(out) => out@ == st.output,
                    _ => false,
                }),
                Run::Halted(st) => final(tape)@ == st.tape && (match r {
                    ExecOutcome::Halted(out) => out@ == st.output,
                    _ => false,
                }),
                Run::Failed(e, st) => final(tape)@ == st.tape && (match r {
                    ExecOutcome::Failed(e2) => e2 == e,
                    _ => false,
                }),
            }
        }),
{
    let ghost s0 = init_state(tape@);
    let mut pc: usize = 0;
    let mut dp: usize = 0;
    let mut in_pos: usize = 0;
    let mut out: Vec<u8> = Vec::new();
    let mut steps: u64 = 0;
    while steps < fuel && pc < program.len()
        invariant
            s0 == init_state(old(tape)@),
            steps <= fuel,
            in_pos <= input@.len(),
            run_n(program@, input@, s0, steps as nat) == Run::Running(
                MachineState {
                    pc: pc as nat,
                    dp: dp as nat,
                    tape: tape@,
                    in_pos: in_pos as nat,
                    output: out@,
                },
            ),
        decreases fuel - steps,
    {
        let ghost cur = MachineState {
            pc: pc as nat,
            dp: dp as nat,
            tape: tape@,
            in_pos: in_pos as nat,
            output: out@,
        };
        match program[pc] {
            Opcode::MoveLeft(k) => {
                if k > dp {
                    proof {
                        lemma_run_absorbs(program@, input@, s0, steps as nat + 1, fuel as nat);
                    }
                    return ExecOutcome::Failed(ExecError::TapeBounds);
                }
                dp = dp - k;
                pc = pc + 1;
            },
            Opcode::MoveRight(k) => {
                if k > usize::MAX - dp {
                    proof {
                        lemma_run_absorbs(program@, input@, s0, steps as nat + 1, fuel as nat);
                    }
                    return ExecOutcome::Failed(ExecError::TapeBounds);
                }
                dp = dp + k;
                pc = pc + 1;
            },
            Opcode::Add(k) => {
                if dp >= tape.len() {
                    proof {
                        lemma_run_absorbs(program@, input@, s0, steps as nat + 1, fuel as nat);
                    }
                    return ExecOutcome::Failed(ExecError::TapeBounds);
                }
                let v = tape[dp];
                let nv = if k <= u8::MAX - v {
                    v + k
                } else {
                    k - (u8::MAX - v) - 1
                };
                proof {
                    assert(nv == wrap_add_u8(v, k));
                }
                tape[dp] = nv;
                pc = pc + 1;
            },
            Opcode::Sub(k) => {
                if dp >= tape.len() {
                    proof {
                        lemma_run_absorbs(program@, input@, s0, steps as nat + 1, fuel as nat);
                    }
                    return ExecOutcome::Failed(ExecError::TapeBounds);
                }
                let v = tape[dp];
                let nv = if k <= v {
                    v - k
                } else {
                    u8::MAX - (k - v) + 1
                };
                proof {
                    assert(nv == wrap_sub_u8(v, k));
                }
                tape[dp] = nv;
                pc = pc + 1;
            },
            Opcode::Write => {
                if dp >= tape.len() {
                    proof {
                        lemma_run_absorbs(program@, input@, s0, steps as nat + 1, fuel as nat);
                    }
                    return ExecOutcome::Failed(ExecError::TapeBounds);
                }
                let v = tape[dp];
                out.push(v);
                pc = pc + 1;
            },
            Opcode::Read => {
                if dp >= tape.len() {
                    proof {
                        lemma_run_absorbs(program@, input@, s0, steps as nat + 1, fuel as nat);
                    }
                    return ExecOutcome::Failed(ExecError::TapeBounds);
                }
                if in_pos >= input.len() {
                    proof {
                        lemma_run_absorbs(program@, input@, s0, steps as nat + 1, fuel as nat);
                    }
                    return ExecOutcome::Failed(ExecError::InputExhausted);
                }
                let b = input[in_pos];
                tape[dp] = b;
                in_pos = in_pos + 1;
                pc = pc + 1;
            },
            Opcode::JumpIfZero(t) => {
                if dp >= tape.len() {
                    proof {
                        lemma_run_absorbs(program@, input@, s0, steps as nat + 1, fuel as nat);
                    }
                    return ExecOutcome::Failed(ExecError::TapeBounds);
                }
                let v = tape[dp];
                if v == 0 {
                    if t == usize::MAX {
                        // the next program counter exceeds every program's
                        // length, so the machine halts on its next step
                        proof {
                            let ghost nxt = MachineState { pc: (t + 1) as nat, ..cur };
                            assert(run_n(program@, input@, s0, steps as nat + 1) == Run::Running(
                                nxt,
                            ));
                            if steps + 1 < fuel {
                                assert(run_n(program@, input@, s0, steps as nat + 2)
                                    == Run::Halted(nxt));
                                lemma_run_absorbs(
                                    program@,
                                    input@,
                                    s0,
                                    steps as nat + 2,
                                    fuel as nat,
                                );
                            }
                        }
                        if steps + 1 < fuel {
                            return ExecOutcome::Halted(out);
                        } else {
                            return ExecOutcome::OutOfFuel(out);
                        }
                    }
                    pc = t + 1;
                } else {
                    pc = pc + 1;
                }
            },
            Opcode::JumpUnlessZero(t) => {
                if dp >= tape.len() {
                    proof {
                        lemma_run_absorbs(program@, input@, s0, steps as nat + 1, fuel as nat);
                    }
                    return ExecOutcome::Failed(ExecError::TapeBounds);
                }
                let v = tape[dp];
                if v != 0 {
                    if t == usize::MAX {
                        // as for the zero-test jump: the next program counter
                        // exceeds every program's length
                        proof {
                            let ghost nxt = MachineState { pc: (t + 1) as nat, ..cur };
                            assert(run_n(program@, input@, s0, steps as nat + 1) == Run::Running(
                                nxt,
                            ));
                            if steps + 1 < fuel {
                                assert(run_n(program@, input@, s0, steps as nat + 2)
                                    == Run::Halted(nxt));
                                lemma_run_absorbs(
                                    program@,
                                    input@,
                                    s0,
                                    steps as nat + 2,
                                    fuel as nat,
                                );
                            }
                        }
                        if steps + 1 < fuel {
                            return ExecOutcome::Halted(out);
                        } else {
                            return ExecOutcome::OutOfFuel(out);
                        }
                    }
                    pc = t + 1;
                } else {
                    pc = pc + 1;
                }
            },
        }
        proof {
            let now = MachineState {
                pc: pc as nat,
                dp: dp as nat,
                tape: tape@,
                in_pos: in_pos as nat,
                output: out@,
            };
            assert(step(program@, input@, cur) == Run::Running(now));
            assert(run_n(program@, input@, s0, steps as nat + 1) == Run::Running(now));
        }
        steps = steps + 1;
    }
    if pc < program.len() {
        // the budget ran out with the machine still running
        ExecOutcome::OutOfFuel(out)
    } else if steps < fuel {
        proof {
            lemma_run_absorbs(program@, input@, s0, steps as nat + 1, fuel as nat);
        }
        ExecOutcome::Halted(out)
    } else {
        // the machine halted exactly when the budget ran out; after `fuel`
        // steps it still counts as running
        ExecOutcome::OutOfFuel(out)
    }
}

} // verus!
