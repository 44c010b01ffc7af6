//! Interpreter logic: the byte tape and the fetch-execute loop.

use crate::cmds::Commands;
use crate::cmds::targets_in_bounds;
use vstd::prelude::*;

verus! {

/// The full state of a run: the tape, the data pointer, the instruction
/// pointer, the number of input bytes consumed so far, and the output
/// emitted so far.
pub struct MachineState {
    pub tape: Seq<u8>,
    pub dp: int,
    pub ip: int,
    pub consumed: int,
    pub out: Seq<u8>,
}

/// The status of a run: still running, halted normally because the
/// instruction pointer fell off the end of the program, or failed because a
/// move would have taken the data pointer outside the tape.
pub enum MachineStatus {
    Running(MachineState),
    Halted(MachineState),
    Failed(MachineState),
}

/// Eight-bit wraparound increment: 255 becomes 0.
pub open spec fn wrap_inc(v: u8) -> u8 {
    if v == 255 {
        0
    } else {
        (v + 1) as u8
    }
}

/// Eight-bit wraparound decrement: 0 becomes 255.
pub open spec fn wrap_dec(v: u8) -> u8 {
    if v == 0 {
        255
    } else {
        (v - 1) as u8
    }
}

/// The wraparound helpers are exactly arithmetic modulo 256.
pub proof fn lemma_wrap_mod(v: u8)
    ensures
        wrap_inc(v) as int == (v as int + 1) % 256,
        wrap_dec(v) as int == (v as int + 255) % 256,
{
}

/// One step of the fetch-execute loop.  A halted or failed run does not
/// change.  A running machine halts when the instruction pointer is outside
/// the program; otherwise the command under the instruction pointer is
/// dispatched, and the instruction pointer advances by one afterwards, also
/// after a taken jump.
pub open spec fn step(prog: Seq<Commands>, input: Seq<u8>, st: MachineStatus) -> MachineStatus {
    match st {
        MachineStatus::Halted(_) => st,
        MachineStatus::Failed(_) => st,
        MachineStatus::Running(m) => {
            if !(0 <= m.ip < prog.len()) {
                MachineStatus::Halted(m)
            } else {
                match prog[m.ip] {
                    Commands::Increment => MachineStatus::Running(
                        MachineState {
                            tape: m.tape.update(m.dp, wrap_inc(m.tape[m.dp])),
                            ip: m.ip + 1,
                            ..m
                        },
                    ),
                    Commands::Decrement => MachineStatus::Running(
                        MachineState {
                            tape: m.tape.update(m.dp, wrap_dec(m.tape[m.dp])),
                            ip: m.ip + 1,
                            ..m
                        },
                    ),
                    Commands::MoveRight => if m.dp + 1 >= m.tape.len() {
                        MachineStatus::Failed(m)
                    } else {
                        MachineStatus::Running(MachineState { dp: m.dp + 1, ip: m.ip + 1, ..m })
                    },
                    Commands::MoveLeft => if m.dp == 0 {
                        MachineStatus::Failed(m)
                    } else {
                        MachineStatus::Running(MachineState { dp: m.dp - 1, ip: m.ip + 1, ..m })
                    },
                    Commands::Print => MachineStatus::Running(
                        MachineState { out: m.out.push(m.tape[m.dp]), ip: m.ip + 1, ..m },
                    ),
                    Commands::Read => if m.consumed < input.len() {
                        MachineStatus::Running(
                            MachineState {
                                tape: m.tape.update(m.dp, input[m.consumed]),
                                consumed: m.consumed + 1,
                                ip: m.ip + 1,
                                ..m
                            },
                        )
                    } else {
                        MachineStatus::Running(MachineState { ip: m.ip + 1, ..m })
                    },
                    Commands::LeftBracket(target) => if m.tape[m.dp] == 0 {
                        MachineStatus::Running(MachineState { ip: target + 1, ..m })
                    } else {
                        MachineStatus::Running(MachineState { ip: m.ip + 1, ..m })
                    },
                    Commands::RightBracket(target) => if m.tape[m.dp] != 0 {
                        MachineStatus::Running(MachineState { ip: target + 1, ..m })
                    } else {
                        MachineStatus::Running(MachineState { ip: m.ip + 1, ..m })
                    },
                }
            }
        },
    }
}

/// The status after `n` steps of the fetch-execute loop from status `st`.
pub open spec fn run(prog: Seq<Commands>, input: Seq<u8>, st: MachineStatus, n: nat) -> MachineStatus
    decreases n,
{
    if n == 0 {
        st
    } else {
        step(prog, input, run(prog, input, st, (n - 1) as nat))
    }
}

/// A halted or failed run never changes again: once the fetch-execute loop
/// reaches such a status, every later step count gives the same status.  In
/// particular the outcome that `execute` promises is unique.
pub proof fn lemma_run_stops(prog: Seq<Commands>, input: Seq<u8>, st: MachineStatus, n1: nat, n2: nat)
    requires
        n1 <= n2,
        !(run(prog, input, st, n1) is Running),
    ensures
        run(prog, input, st, n2) == run(prog, input, st, n1),
    decreases n2,
{
    if n2 > n1 {
        lemma_run_stops(prog, input, st, n1, (n2 - 1) as nat);
    }
}

/// Two stopped statuses of the same run are the same status, whatever the
/// step counts at which they were observed.
pub proof fn lemma_outcome_unique(
    prog: Seq<Commands>,
    input: Seq<u8>,
    st: MachineStatus,
    n1: nat,
    n2: nat,
)
    requires
        !(run(prog, input, st, n1) is Running),
        !(run(prog, input, st, n2) is Running),
    ensures
        run(prog, input, st, n1) == run(prog, input, st, n2),
{
    if n1 <= n2 {
        lemma_run_stops(prog, input, st, n1, n2);
    } else {
        lemma_run_stops(prog, input, st, n2, n1);
    }
}

/// Incrementing a cell holding 255 wraps around to 0: executing `Increment`
/// there stores 0 and the run goes on.
pub proof fn lemma_increment_wraps(prog: Seq<Commands>, input: Seq<u8>, m: MachineState)
    requires
        0 <= m.ip < prog.len(),
        prog[m.ip] == Commands::Increment,
        0 <= m.dp < m.tape.len(),
        m.tape[m.dp] == 255,
    ensures
        step(prog, input, MachineStatus::Running(m)) matches MachineStatus::Running(m2)
            && m2.tape[m.dp] == 0,
{
}

/// Decrementing a cell holding 0 wraps around to 255: executing `Decrement`
/// there stores 255 and the run goes on.
pub proof fn lemma_decrement_wraps(prog: Seq<Commands>, input: Seq<u8>, m: MachineState)
    requires
        0 <= m.ip < prog.len(),
        prog[m.ip] == Commands::Decrement,
        0 <= m.dp < m.tape.len(),
        m.tape[m.dp] == 0,
    ensures
        step(prog, input, MachineStatus::Running(m)) matches MachineStatus::Running(m2)
            && m2.tape[m.dp] == 255,
{
}

/// Executing `Read` when no input bytes remain is a defined no-op, not an
/// error: the whole machine is unchanged except that the instruction
/// pointer advances by one; in particular the current cell keeps its value.
pub proof fn lemma_read_exhausted(prog: Seq<Commands>, input: Seq<u8>, m: MachineState)
    requires
        0 <= m.ip < prog.len(),
        prog[m.ip] == Commands::Read,
        m.consumed >= input.len(),
    ensures
        step(prog, input, MachineStatus::Running(m)) == MachineStatus::Running(
            MachineState { ip: m.ip + 1, ..m },
        ),
{
}

/// Why a call to `execute` stopped.
#[derive(Clone, Copy, Debug, PartialEq, Eq, Structural)]
pub enum StopReason {
    /// The instruction pointer fell off the end of the program.
    Halted,
    /// A move would have taken the data pointer below 0 or past the end of
    /// the tape.
    OutOfBounds,
    /// The step budget was exhausted while the program was still running.
    StepLimit,
}

/// The outcome of a call to `execute`: the bytes emitted (kept even when the
/// run fails), the number of input bytes consumed, and why the run stopped.
pub struct ExecutionResult {
    pub output: Vec<u8>,
    pub consumed: usize,
    pub status: StopReason,
}

/// Interpreter state: the byte tape, the program, and the two pointers.
pub struct Interpreter {
    pub data: Vec<u8>,
    pub data_pointer: usize,
    pub inst: Vec<Commands>,
    pub inst_pointer: usize,
}

impl Interpreter {
    /// The machine state this interpreter is in, for a given count of
    /// consumed input bytes and emitted output.
    pub open spec fn state(self, consumed: int, out: Seq<u8>) -> MachineState {
        MachineState {
            tape: self.data@,
            dp: self.data_pointer as int,
            ip: self.inst_pointer as int,
            consumed,
            out,
        }
    }

    /// Execute instructions until the program halts, a move would leave the
    /// tape, or `max_steps` steps of the fetch-execute loop have been taken.
    /// Each `Read` command takes at most one byte from `input`, in order;
    /// once `input` is exhausted, `Read` leaves the current cell unchanged.
    /// Each `Print` command appends one byte to the output.
    #[verifier::loop_isolation(false)]
    pub fn execute(&mut self, input: &[u8], max_steps: u64) -> (r: ExecutionResult)
        requires
            targets_in_bounds(old(self).inst@),
            old(self).data_pointer < old(self).data.len(),
        ensures
            final(self).inst@ == old(self).inst@,
            final(self).data@.len() == old(self).data@.len(),
            final(self).data_pointer < final(self).data.len(),
            r.consumed <= input@.len(),
            ({
                let start = MachineStatus::Running(old(self).state(0, Seq::empty()));
                let fin = final(self).state(r.consumed as int, r.output@);
                match r.status {
                    StopReason::Halted => exists|n: nat|
                        n <= max_steps + 1 && run(old(self).inst@, input@, start, n)
                            == MachineStatus::Halted(fin),
                    StopReason::OutOfBounds => exists|n: nat|
                        n <= max_steps + 1 && run(old(self).inst@, input@, start, n)
                            == MachineStatus::Failed(fin),
                    StopReason::StepLimit => run(old(self).inst@, input@, start, max_steps as nat)
                        == MachineStatus::Running(fin) && 0 <= fin.ip < old(self).inst@.len(),
                }
            }),
    {
        let ghost prog = self.inst@;
        let ghost inp = input@;
        let ghost start = MachineStatus::Running(self.state(0, Seq::empty()));
        let ghost tape_len = self.data@.len();
        let mut output: Vec<u8> = Vec::new();
        let mut consumed: usize = 0;
        let mut steps: u64 = 0;
        loop
            invariant
                steps <= max_steps,
                self.inst@ == prog,
                inp == input@,
                targets_in_bounds(prog),
                self.data_pointer < self.data.len(),
                self.data@.len() == tape_len,
                consumed <= input@.len(),
                run(prog, inp, start, steps as nat) == MachineStatus::Running(
                    self.state(consumed as int, output@),
                ),
            decreases max_steps - steps,
        {
            let ghost pre = *self;
            let ghost pre_m = self.state(consumed as int, output@);
            if self.inst_pointer >= self.inst.len() {
                proof {
                    assert(run(prog, inp, start, (steps + 1) as nat) == step(
                        prog,
                        inp,
                        run(prog, inp, start, steps as nat),
                    ));
                    assert(step(prog, inp, MachineStatus::Running(pre_m))
                        == MachineStatus::Halted(pre_m));
                }
                return ExecutionResult { output, consumed, status: StopReason::Halted };
            }
            if steps >= max_steps {
                return ExecutionResult { output, consumed, status: StopReason::StepLimit };
            }
            let cmd = self.inst[self.inst_pointer];
            match cmd {
                Commands::Increment => {
                    let dp = self.data_pointer;
                    let v = self.data[dp];
                    self.data[dp] = if v == 255 {
                        0
                    } else {
                        v + 1
                    };
                },
                Commands::Decrement => {
                    let dp = self.data_pointer;
                    let v = self.data[dp];
                    self.data[dp] = if v == 0 {
                        255
                    } else {
                        v - 1
                    };
                },
                Commands::MoveRight => {
                    if self.data_pointer + 1 >= self.data.len() {
                        proof {
                            assert(run(prog, inp, start, (steps + 1) as nat) == step(
                                prog,
                                inp,
                                run(prog, inp, start, steps as nat),
                            ));
                            assert(step(prog, inp, MachineStatus::Running(pre_m))
                                == MachineStatus::Failed(pre_m));
                        }
                        return ExecutionResult { output, consumed, status: StopReason::OutOfBounds };
                    }
                    self.data_pointer = self.data_pointer + 1;
                },
                Commands::MoveLeft => {
                    if self.data_pointer == 0 {
                        proof {
                            assert(run(prog, inp, start, (steps + 1) as nat) == step(
                                prog,
                                inp,
                                run(prog, inp, start, steps as nat),
                            ));
                            assert(step(prog, inp, MachineStatus::Running(pre_m))
                                == MachineStatus::Failed(pre_m));
                        }
                        return ExecutionResult { output, consumed, status: StopReason::OutOfBounds };
                    }
                    self.data_pointer = self.data_pointer - 1;
                },
                Commands::Print => {
                    output.push(self.data[self.data_pointer]);
                },
                Commands::Read => {
                    if consumed < input.len() {
                        self.data[self.data_pointer] = input[consumed];
                        consumed = consumed + 1;
                    }
                },
                Commands::LeftBracket(value) => {
                    if self.data[self.data_pointer] == 0 {
                        self.inst_pointer = value;
                    }
                },
                Commands::RightBracket(value) => {
                    if self.data[self.data_pointer] != 0 {
                        self.inst_pointer = value;
                    }
                },
            }
            self.inst_pointer = self.inst_pointer + 1;
            proof {
                assert(run(prog, inp, start, (steps + 1) as nat) == step(
                    prog,
                    inp,
                    run(prog, inp, start, steps as nat),
                ));
                assert(step(prog, inp, MachineStatus::Running(pre_m)) == MachineStatus::Running(
                    self.state(consumed as int, output@),
                ));
            }
            steps = steps + 1;
        }
    }
}

} // verus!
